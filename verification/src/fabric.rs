#![verifier::loop_isolation(false)]
//! A software reliable-connected verbs model: registered memory, queue pairs,
//! posted receives and completions, under aggregate budgets.
use vstd::prelude::*;
use std::collections::VecDeque;
use crate::model::{Error, ErrorKind, Result, Simulation, outcome};
use crate::keyed::{Keyed, has_key, unique_keys, key_index, keyed, find, str_eq, lemma_index_of_key, lemma_push_key};
use crate::outside::new_id;
use crate::topology::{Transmission, transferred, transfer_fault};

verus! {

#[derive(Clone, Copy, Debug, PartialEq, Eq, Structural)]
pub enum QpState {
    Reset,
    Rts,
    Error,
}

#[derive(Clone, Copy, Debug, PartialEq, Eq, Structural)]
pub enum Opcode {
    Send,
    Receive,
    RdmaWrite,
}

#[derive(Clone, Copy, Debug, PartialEq, Eq, Structural)]
pub struct Completion {
    pub wr_id: u64,
    pub opcode: Opcode,
    pub bytes: usize,
    pub completed_ns: u64,
}

/// A registered memory region, pinned to the node generation it was registered in.
#[derive(Clone, Debug)]
pub struct Memory {
    pub key: String,
    pub node: String,
    pub generation: u64,
    pub bytes: Vec<u8>,
    pub remote_write: bool,
    pub rkey: String,
}

/// A posted receive: the byte range `start..end` of region `mr`.
#[derive(Clone, Debug)]
pub struct Receive {
    pub mr: String,
    pub start: usize,
    pub end: usize,
    pub wr_id: u64,
}

#[derive(Clone, Debug)]
pub struct Qp {
    pub key: String,
    pub node: String,
    pub generation: u64,
    pub state: QpState,
    pub peer: Option<String>,
    pub receives: VecDeque<Receive>,
    pub completions: VecDeque<Completion>,
}

impl Keyed for Memory {
    open spec fn key(&self) -> Seq<char> { self.key@ }
    fn key_str(&self) -> (r: &str) { self.key.as_str() }
}

impl Keyed for Qp {
    open spec fn key(&self) -> Seq<char> { self.key@ }
    fn key_str(&self) -> (r: &str) { self.key.as_str() }
}

/// Aggregate per-fabric budgets, separate from the simulation's own limits.
#[derive(Clone, Copy, Debug, PartialEq, Eq, Structural)]
pub struct FabricLimits {
    pub queue_pairs: usize,
    pub memory_regions: usize,
    pub queued_entries: usize,
    pub payload_bytes: usize,
}

pub open spec fn default_fabric_limits() -> FabricLimits {
    FabricLimits { queue_pairs: 4096, memory_regions: 4096, queued_entries: 65536, payload_bytes: 67108864 }
}

impl Default for FabricLimits {
    fn default() -> (r: Self)
        ensures
            r == default_fabric_limits(),
    {
        FabricLimits { queue_pairs: 4096, memory_regions: 4096, queued_entries: 65536, payload_bytes: 67108864 }
    }
}

#[derive(Clone, Copy, Debug, PartialEq, Eq, Structural)]
pub struct FabricUsage {
    pub queue_pairs: usize,
    pub memory_regions: usize,
    pub queued_entries: usize,
    pub payload_bytes: usize,
}

#[derive(Clone, Debug)]
pub struct Fabric {
    simulation: String,
    memory: Vec<Memory>,
    qps: Vec<Qp>,
    capacity: usize,
    limits: FabricLimits,
    queued_entries: usize,
    payload_bytes: usize,
}

/// The sum of `w` over `s`.
pub open spec fn total<T>(s: Seq<T>, w: spec_fn(T) -> nat) -> nat
    decreases s.len(),
{
    if s.len() == 0 {
        0
    } else {
        total(s.drop_last(), w) + w(s.last())
    }
}

pub proof fn lemma_total_push<T>(s: Seq<T>, w: spec_fn(T) -> nat, x: T)
    ensures
        total(s.push(x), w) == total(s, w) + w(x),
{
    assert(s.push(x).drop_last() =~= s);
}

pub proof fn lemma_total_update<T>(s: Seq<T>, w: spec_fn(T) -> nat, i: int, x: T)
    requires
        0 <= i < s.len(),
    ensures
        total(s.update(i, x), w) == total(s, w) - w(s[i]) + w(x),
    decreases s.len(),
{
    if i == s.len() - 1 {
        assert(s.update(i, x).drop_last() =~= s.drop_last());
    } else {
        lemma_total_update(s.drop_last(), w, i, x);
        assert(s.update(i, x).drop_last() =~= s.drop_last().update(i, x));
    }
}

pub proof fn lemma_total_remove<T>(s: Seq<T>, w: spec_fn(T) -> nat, i: int)
    requires
        0 <= i < s.len(),
    ensures
        total(s.remove(i), w) == total(s, w) - w(s[i]),
    decreases s.len(),
{
    if i == s.len() - 1 {
        assert(s.remove(i) =~= s.drop_last());
    } else {
        lemma_total_remove(s.drop_last(), w, i);
        assert(s.remove(i).drop_last() =~= s.drop_last().remove(i));
    }
}

pub proof fn lemma_total_same<T>(a: Seq<T>, b: Seq<T>, w: spec_fn(T) -> nat)
    requires
        a.len() == b.len(),
        forall|i: int| 0 <= i < a.len() ==> #[trigger] w(a[i]) == w(b[i]),
    ensures
        total(a, w) == total(b, w),
    decreases a.len(),
{
    if a.len() > 0 {
        lemma_total_same(a.drop_last(), b.drop_last(), w);
    }
}

pub proof fn lemma_total_elem<T>(s: Seq<T>, w: spec_fn(T) -> nat, i: int)
    requires
        0 <= i < s.len(),
    ensures
        w(s[i]) <= total(s, w),
    decreases s.len(),
{
    if i < s.len() - 1 {
        lemma_total_elem(s.drop_last(), w, i);
    }
}

/// Entries a queue pair holds: posted receives and unpolled completions.
pub open spec fn queue_weight() -> spec_fn(Qp) -> nat {
    |q: Qp| (q.receives@.len() + q.completions@.len()) as nat
}

/// Bytes a memory region holds.
pub open spec fn payload_weight() -> spec_fn(Memory) -> nat {
    |m: Memory| m.bytes@.len()
}

/// Is `node` present in `sim` in exactly this generation?
pub open spec fn live(sim: Simulation, node: Seq<char>, generation: u64) -> bool {
    has_key(sim.nodes@, node) && keyed(sim.nodes@, node).generation == generation
}

/// Does any posted receive name region `mr`?
/// Every posted receive names a registered region.
pub open spec fn receives_live(qps: Seq<Qp>, memory: Seq<Memory>) -> bool {
    forall|i: int, j: int| 0 <= i < qps.len() && 0 <= j < qps[i].receives@.len()
        ==> has_key(memory, (#[trigger] qps[i].receives@[j]).mr@)
}

pub open spec fn receive_posted(qps: Seq<Qp>, mr: Seq<char>) -> bool {
    exists|i: int, j: int| 0 <= i < qps.len() && 0 <= j < qps[i].receives@.len()
        && (#[trigger] qps[i].receives@[j]).mr@ == mr
}

pub open spec fn valid_range(start: usize, end: usize, len: nat) -> bool {
    start <= end && end <= len
}

impl Fabric {
    pub closed spec fn simulation(&self) -> Seq<char> { self.simulation@ }
    pub closed spec fn memory(&self) -> Seq<Memory> { self.memory@ }
    pub closed spec fn qps(&self) -> Seq<Qp> { self.qps@ }
    pub closed spec fn capacity(&self) -> usize { self.capacity }
    pub closed spec fn limits(&self) -> FabricLimits { self.limits }
    pub closed spec fn queued_entries(&self) -> usize { self.queued_entries }
    pub closed spec fn payload_bytes(&self) -> usize { self.payload_bytes }

    /// Keys are unique, the counters equal what the queues and regions hold,
    /// and every budget and queue bound is respected.
    pub closed spec fn wf(&self) -> bool {
        &&& unique_keys(self.memory@)
        &&& unique_keys(self.qps@)
        &&& 1 <= self.capacity <= 65536
        &&& self.queued_entries == total(self.qps@, queue_weight())
        &&& self.payload_bytes == total(self.memory@, payload_weight())
        &&& self.qps@.len() <= self.limits.queue_pairs
        &&& self.memory@.len() <= self.limits.memory_regions
        &&& self.queued_entries <= self.limits.queued_entries
        &&& self.payload_bytes <= self.limits.payload_bytes
        &&& forall|i: int| 0 <= i < self.qps@.len() ==> (#[trigger] self.qps@[i]).receives@.len() <= self.capacity
            && self.qps@[i].completions@.len() <= self.capacity
            && (self.qps@[i].peer matches Some(p) ==> p@ != self.qps@[i].key@)
        &&& receives_live(self.qps@, self.memory@)
    }

    /// What fails first when queue pair `key` is looked up for `sim`.
    pub open spec fn qp_fault(&self, sim: Simulation, key: Seq<char>) -> Option<ErrorKind> {
        if sim.id@ != self.simulation() {
            Some(ErrorKind::Conflict)
        } else if !has_key(self.qps(), key) {
            Some(ErrorKind::NotFound)
        } else if !has_key(sim.nodes@, keyed(self.qps(), key).node@) {
            Some(ErrorKind::NotFound)
        } else if !live(sim, keyed(self.qps(), key).node@, keyed(self.qps(), key).generation) {
            Some(ErrorKind::State)
        } else {
            None
        }
    }

    /// What fails first when memory region `key` is looked up for `sim`.
    pub open spec fn mr_fault(&self, sim: Simulation, key: Seq<char>) -> Option<ErrorKind> {
        if sim.id@ != self.simulation() {
            Some(ErrorKind::Conflict)
        } else if !has_key(self.memory(), key) {
            Some(ErrorKind::NotFound)
        } else if !has_key(sim.nodes@, keyed(self.memory(), key).node@) {
            Some(ErrorKind::NotFound)
        } else if !live(sim, keyed(self.memory(), key).node@, keyed(self.memory(), key).generation) {
            Some(ErrorKind::State)
        } else {
            None
        }
    }

    /// A fabric for `sim`: `queue capacity` bounds every queue pair's receive
    /// and completion queues and must lie in 1..=65536.
    pub fn with_limits(sim: &Simulation, capacity: usize, limits: FabricLimits) -> (r: Result<Fabric>)
        ensures
            r is Ok <==> 1 <= capacity <= 65536,
            r is Err ==> r->Err_0 is Invalid,
            r matches Ok(f) ==> f.wf() && f.simulation() == sim.id@ && f.memory().len() == 0
                && f.qps().len() == 0 && f.capacity() == capacity && f.limits() == limits,
    {
        if capacity < 1 || capacity > 65536 {
            return Err(Error::Invalid("queue capacity must be 1..65536".to_owned()));
        }
        let f = Fabric {
            simulation: sim.id.clone(),
            memory: Vec::new(),
            qps: Vec::new(),
            capacity,
            limits,
            queued_entries: 0,
            payload_bytes: 0,
        };
        proof {
            assert(f.qps@.len() == 0);
            assert(f.memory@.len() == 0);
        }
        Ok(f)
    }

    /// A fabric with the default budgets.
    pub fn new(sim: &Simulation, capacity: usize) -> (r: Result<Fabric>)
        ensures
            r is Ok <==> 1 <= capacity <= 65536,
            r is Err ==> r->Err_0 is Invalid,
            r matches Ok(f) ==> f.wf() && f.simulation() == sim.id@ && f.memory().len() == 0
                && f.qps().len() == 0 && f.capacity() == capacity && f.limits() == default_fabric_limits(),
    {
        Self::with_limits(sim, capacity, FabricLimits::default())
    }

    pub fn usage(&self) -> (r: FabricUsage)
        requires
            self.wf(),
        ensures
            r.queue_pairs == self.qps().len(),
            r.memory_regions == self.memory().len(),
            r.queued_entries == total(self.qps(), queue_weight()),
            r.payload_bytes == total(self.memory(), payload_weight()),
    {
        FabricUsage {
            queue_pairs: self.qps.len(),
            memory_regions: self.memory.len(),
            queued_entries: self.queued_entries,
            payload_bytes: self.payload_bytes,
        }
    }

    /// `Ok` exactly when `additional` more entries fit the aggregate queue budget.
    fn queue_capacity(&self, additional: usize) -> (r: Result<()>)
        ensures
            r is Ok <==> self.queued_entries() + additional <= self.limits().queued_entries,
            r is Err ==> r->Err_0 is Conflict,
    {
        crate::limits::capacity("aggregate fabric queue entries", self.queued_entries, additional, self.limits.queued_entries)
    }

    fn check_sim(&self, sim: &Simulation) -> (r: Result<()>)
        ensures
            r is Ok <==> sim.id@ == self.simulation(),
            r is Err ==> r->Err_0 is Conflict,
    {
        if !str_eq(sim.id.as_str(), self.simulation.as_str()) {
            return Err(Error::Conflict("fabric belongs to another simulation".to_owned()));
        }
        Ok(())
    }

    /// The position of a usable queue pair.
    fn qp(&self, sim: &Simulation, key: &str) -> (r: Result<usize>)
        requires
            self.wf(),
            sim.wf(),
        ensures
            outcome(r) == self.qp_fault(*sim, key@),
            r matches Ok(i) ==> i < self.qps().len() && i == key_index(self.qps(), key@)
                && self.qps()[i as int].key() == key@,
    {
        self.check_sim(sim)?;
        let i = match find(&self.qps, key) {
            Some(i) => i,
            None => return Err(Error::NotFound(key.to_owned())),
        };
        proof { lemma_index_of_key(self.qps@, i as int); }
        let n = match find(&sim.nodes, self.qps[i].node.as_str()) {
            Some(n) => n,
            None => return Err(Error::NotFound(self.qps[i].node.clone())),
        };
        proof { lemma_index_of_key(sim.nodes@, n as int); }
        if sim.nodes[n].generation != self.qps[i].generation {
            return Err(Error::State("stale queue pair after reset/shutdown".to_owned()));
        }
        Ok(i)
    }

    /// The position of a usable memory region.
    fn mr(&self, sim: &Simulation, key: &str) -> (r: Result<usize>)
        requires
            self.wf(),
            sim.wf(),
        ensures
            outcome(r) == self.mr_fault(*sim, key@),
            r matches Ok(i) ==> i < self.memory().len() && i == key_index(self.memory(), key@)
                && self.memory()[i as int].key() == key@,
    {
        self.check_sim(sim)?;
        let i = match find(&self.memory, key) {
            Some(i) => i,
            None => return Err(Error::NotFound(key.to_owned())),
        };
        proof { lemma_index_of_key(self.memory@, i as int); }
        let n = match find(&sim.nodes, self.memory[i].node.as_str()) {
            Some(n) => n,
            None => return Err(Error::NotFound(self.memory[i].node.clone())),
        };
        proof { lemma_index_of_key(sim.nodes@, n as int); }
        if sim.nodes[n].generation != self.memory[i].generation {
            return Err(Error::State("stale memory registration".to_owned()));
        }
        Ok(i)
    }
}


/// `b` is `a` with one more region at the end, with these fields.
pub open spec fn region_added(a: Seq<Memory>, b: Seq<Memory>, key: Seq<char>, node: Seq<char>, generation: u64,
    bytes: Seq<u8>, remote_write: bool) -> bool {
    &&& b.len() == a.len() + 1 && b.drop_last() == a
    &&& b.last().key@ == key && b.last().node@ == node && b.last().generation == generation
    &&& b.last().bytes@ == bytes && b.last().remote_write == remote_write
}

/// `b` is `a` with one more queue pair at the end, in state `Reset` with empty queues.
pub open spec fn qp_added(a: Seq<Qp>, b: Seq<Qp>, key: Seq<char>, node: Seq<char>, generation: u64) -> bool {
    &&& b.len() == a.len() + 1 && b.drop_last() == a
    &&& b.last().key@ == key && b.last().node@ == node && b.last().generation == generation
    &&& b.last().state == QpState::Reset && b.last().peer is None
    &&& b.last().receives@.len() == 0 && b.last().completions@.len() == 0
}

/// `b` is `a` with another state and peer; key, node, generation and queues kept.
pub open spec fn qp_rewired(a: Qp, b: Qp, state: QpState, peer: Option<Seq<char>>) -> bool {
    &&& b.key == a.key && b.node == a.node && b.generation == a.generation
    &&& b.receives@ == a.receives@ && b.completions@ == a.completions@
    &&& b.state == state
    &&& match peer { Some(p) => b.peer is Some && b.peer->0@ == p, None => b.peer is None }
}

/// `b` is `a` with its queues replaced by `receives` and `completions`.
pub open spec fn qp_queues(a: Qp, b: Qp, receives: Seq<Receive>, completions: Seq<Completion>) -> bool {
    &&& b.key == a.key && b.node == a.node && b.generation == a.generation
    &&& b.state == a.state && b.peer == a.peer
    &&& b.receives@ == receives && b.completions@ == completions
}

/// `b` differs from `a` at most at position `i`.
pub open spec fn others_kept<T>(a: Seq<T>, b: Seq<T>, i: int) -> bool {
    a.len() == b.len() && forall|k: int| 0 <= k < a.len() && k != i ==> #[trigger] b[k] == a[k]
}

impl Fabric {
    pub open spec fn register_fault(&self, sim: Simulation, node: Seq<char>, len: nat) -> Option<ErrorKind> {
        if sim.id@ != self.simulation() {
            Some(ErrorKind::Conflict)
        } else if !has_key(sim.nodes@, node) {
            Some(ErrorKind::NotFound)
        } else if len == 0 || len > 16 * 1024 * 1024 {
            Some(ErrorKind::Invalid)
        } else if self.memory().len() + 1 > self.limits().memory_regions {
            Some(ErrorKind::Conflict)
        } else if self.payload_bytes() + len > self.limits().payload_bytes {
            Some(ErrorKind::Conflict)
        } else {
            None
        }
    }

    /// Registers `bytes` as a memory region of `node`, in the node's current generation.
    /// A fresh random key that happens to collide is refused as a conflict.
    pub fn register(&mut self, sim: &Simulation, node: &str, bytes: Vec<u8>, remote_write: bool) -> (r: Result<String>)
        requires
            old(self).wf(),
            sim.wf(),
        ensures
            final(self).wf(),
            r is Err ==> *final(self) == *old(self),
            old(self).register_fault(*sim, node@, bytes@.len()) matches Some(k) ==> r is Err && r->Err_0.kind() == k,
            r is Ok ==> old(self).register_fault(*sim, node@, bytes@.len()) is None,
            r is Err && old(self).register_fault(*sim, node@, bytes@.len()) is None ==> r->Err_0 is Conflict,
            r matches Ok(k) ==> !has_key(old(self).memory(), k@)
                && region_added(old(self).memory(), final(self).memory(), k@, node@,
                    keyed(sim.nodes@, node@).generation, bytes@, remote_write)
                && final(self).qps() == old(self).qps() && final(self).payload_bytes() == old(self).payload_bytes() + bytes@.len()
                && final(self).simulation() == old(self).simulation() && final(self).capacity() == old(self).capacity()
                && final(self).limits() == old(self).limits(),
    {
        let key = new_id();
        self.register_with_id(sim, node, bytes, remote_write, key)
    }

    /// `register` with the identifier already drawn.
    pub fn register_with_id(&mut self, sim: &Simulation, node: &str, bytes: Vec<u8>, remote_write: bool, key: String) -> (r: Result<String>)
        requires
            old(self).wf(),
            sim.wf(),
        ensures
            final(self).wf(),
            r is Err ==> *final(self) == *old(self),
            old(self).register_fault(*sim, node@, bytes@.len()) matches Some(k) ==> r is Err && r->Err_0.kind() == k,
            r is Ok ==> old(self).register_fault(*sim, node@, bytes@.len()) is None,
            r is Err && old(self).register_fault(*sim, node@, bytes@.len()) is None ==> r->Err_0 is Conflict,
            r matches Ok(k) ==> !has_key(old(self).memory(), k@)
                && region_added(old(self).memory(), final(self).memory(), k@, node@,
                    keyed(sim.nodes@, node@).generation, bytes@, remote_write)
                && final(self).qps() == old(self).qps() && final(self).payload_bytes() == old(self).payload_bytes() + bytes@.len()
                && final(self).simulation() == old(self).simulation() && final(self).capacity() == old(self).capacity()
                && final(self).limits() == old(self).limits(),
            old(self).register_fault(*sim, node@, bytes@.len()) is None && !has_key(old(self).memory(), key@) ==> r is Ok,
            r matches Ok(k) ==> k@ == key@,
    {
        self.check_sim(sim)?;
        let n = match find(&sim.nodes, node) {
            Some(n) => n,
            None => return Err(Error::NotFound(node.to_owned())),
        };
        proof { lemma_index_of_key(sim.nodes@, n as int); }
        if bytes.len() == 0 || bytes.len() > 16 * 1024 * 1024 {
            return Err(Error::Invalid("memory region must be 1 byte..16 MiB".to_owned()));
        }
        crate::limits::capacity("fabric memory regions", self.memory.len(), 1, self.limits.memory_regions)?;
        crate::limits::capacity("fabric payload bytes", self.payload_bytes, bytes.len(), self.limits.payload_bytes)?;

        if find(&self.memory, key.as_str()).is_some() {
            return Err(Error::Conflict("memory key collision".to_owned()));
        }
        let ghost m0 = self.memory@;
        let len = bytes.len();
        let m = Memory {
            key: key.clone(),
            node: node.to_owned(),
            generation: sim.nodes[n].generation,
            bytes,
            remote_write,
            rkey: new_id(),
        };
        proof {
            lemma_push_key(m0, m);
            lemma_total_push(m0, payload_weight(), m);
        }
        self.memory.push(m);
        self.payload_bytes = self.payload_bytes + len;
        proof { assert(self.memory@.drop_last() =~= m0); }
        Ok(key)
    }

    /// The bytes of a usable region.
    pub fn bytes(&self, sim: &Simulation, mr: &str) -> (r: Result<&[u8]>)
        requires
            self.wf(),
            sim.wf(),
        ensures
            outcome(r) == self.mr_fault(*sim, mr@),
            r matches Ok(b) ==> b@ == keyed(self.memory(), mr@).bytes@,
    {
        let i = self.mr(sim, mr)?;
        Ok(self.memory[i].bytes.as_slice())
    }

    /// The remote key a peer must present to write into a usable region.
    pub fn remote_key(&self, sim: &Simulation, mr: &str) -> (r: Result<&str>)
        requires
            self.wf(),
            sim.wf(),
        ensures
            outcome(r) == self.mr_fault(*sim, mr@),
            r matches Ok(k) ==> k@ == keyed(self.memory(), mr@).rkey@,
    {
        let i = self.mr(sim, mr)?;
        Ok(self.memory[i].rkey.as_str())
    }

    /// Releases a region that no posted receive names.
    pub fn deregister(&mut self, mr: &str) -> (r: Result<()>)
        requires
            old(self).wf(),
        ensures
            final(self).wf(),
            r is Err ==> *final(self) == *old(self),
            receive_posted(old(self).qps(), mr@) ==> r is Err && r->Err_0 is Conflict,
            !receive_posted(old(self).qps(), mr@) && !has_key(old(self).memory(), mr@) ==> r is Err && r->Err_0 is NotFound,
            !has_key(old(self).memory(), mr@) ==> r is Err && r->Err_0 is NotFound,
            r is Ok <==> !receive_posted(old(self).qps(), mr@) && has_key(old(self).memory(), mr@),
            r is Ok ==> final(self).memory() == old(self).memory().remove(key_index(old(self).memory(), mr@))
                && final(self).payload_bytes() == old(self).payload_bytes() - keyed(old(self).memory(), mr@).bytes@.len()
                && final(self).qps() == old(self).qps() && final(self).queued_entries() == old(self).queued_entries()
                && final(self).simulation() == old(self).simulation() && final(self).capacity() == old(self).capacity()
                && final(self).limits() == old(self).limits(),
    {
        let mut i: usize = 0;
        while i < self.qps.len()
            invariant
                i <= self.qps@.len(),
                forall|a: int, b: int| 0 <= a < i && 0 <= b < self.qps@[a].receives@.len()
                    ==> (#[trigger] self.qps@[a].receives@[b]).mr@ != mr@,
            decreases self.qps@.len() - i,
        {
            let mut j: usize = 0;
            while j < self.qps[i].receives.len()
                invariant
                    i < self.qps@.len(),
                    j <= self.qps@[i as int].receives@.len(),
                    forall|a: int, b: int| 0 <= a < i && 0 <= b < self.qps@[a].receives@.len()
                        ==> (#[trigger] self.qps@[a].receives@[b]).mr@ != mr@,
                    forall|b: int| 0 <= b < j ==> (#[trigger] self.qps@[i as int].receives@[b]).mr@ != mr@,
                decreases self.qps@[i as int].receives@.len() - j,
            {
                if str_eq(self.qps[i].receives[j].mr.as_str(), mr) {
                    return Err(Error::Conflict("memory has a posted receive".to_owned()));
                }
                j += 1;
            }
            i += 1;
        }
        let k = match find(&self.memory, mr) {
            Some(k) => k,
            None => return Err(Error::NotFound(mr.to_owned())),
        };
        proof {
            lemma_index_of_key(self.memory@, k as int);
            lemma_total_remove(self.memory@, payload_weight(), k as int);
            lemma_total_elem(self.memory@, payload_weight(), k as int);
            crate::keyed::lemma_remove_key(self.memory@, k as int);
        }
        let removed = self.memory.remove(k);
        self.payload_bytes = self.payload_bytes - removed.bytes.len();
        Ok(())
    }

    pub open spec fn create_qp_fault(&self, sim: Simulation, node: Seq<char>) -> Option<ErrorKind> {
        if sim.id@ != self.simulation() {
            Some(ErrorKind::Conflict)
        } else if self.qps().len() + 1 > self.limits().queue_pairs {
            Some(ErrorKind::Conflict)
        } else if !has_key(sim.nodes@, node) {
            Some(ErrorKind::NotFound)
        } else {
            None
        }
    }

    /// A new queue pair on `node`, in state `Reset`.
    /// A fresh random key that happens to collide is refused as a conflict.
    pub fn create_qp(&mut self, sim: &Simulation, node: &str) -> (r: Result<String>)
        requires
            old(self).wf(),
            sim.wf(),
        ensures
            final(self).wf(),
            r is Err ==> *final(self) == *old(self),
            old(self).create_qp_fault(*sim, node@) matches Some(k) ==> r is Err && r->Err_0.kind() == k,
            r is Ok ==> old(self).create_qp_fault(*sim, node@) is None,
            r is Err && old(self).create_qp_fault(*sim, node@) is None ==> r->Err_0 is Conflict,
            r matches Ok(k) ==> !has_key(old(self).qps(), k@)
                && qp_added(old(self).qps(), final(self).qps(), k@, node@, keyed(sim.nodes@, node@).generation)
                && final(self).memory() == old(self).memory() && final(self).queued_entries() == old(self).queued_entries()
                && final(self).payload_bytes() == old(self).payload_bytes()
                && final(self).simulation() == old(self).simulation() && final(self).capacity() == old(self).capacity()
                && final(self).limits() == old(self).limits(),
    {
        let key = new_id();
        self.create_qp_with_id(sim, node, key)
    }

    /// `create_qp` with the identifier already drawn.
    pub fn create_qp_with_id(&mut self, sim: &Simulation, node: &str, key: String) -> (r: Result<String>)
        requires
            old(self).wf(),
            sim.wf(),
        ensures
            final(self).wf(),
            r is Err ==> *final(self) == *old(self),
            old(self).create_qp_fault(*sim, node@) matches Some(k) ==> r is Err && r->Err_0.kind() == k,
            r is Ok ==> old(self).create_qp_fault(*sim, node@) is None,
            r is Err && old(self).create_qp_fault(*sim, node@) is None ==> r->Err_0 is Conflict,
            r matches Ok(k) ==> !has_key(old(self).qps(), k@)
                && qp_added(old(self).qps(), final(self).qps(), k@, node@, keyed(sim.nodes@, node@).generation)
                && final(self).memory() == old(self).memory() && final(self).queued_entries() == old(self).queued_entries()
                && final(self).payload_bytes() == old(self).payload_bytes()
                && final(self).simulation() == old(self).simulation() && final(self).capacity() == old(self).capacity()
                && final(self).limits() == old(self).limits(),
            old(self).create_qp_fault(*sim, node@) is None && !has_key(old(self).qps(), key@) ==> r is Ok,
            r matches Ok(k) ==> k@ == key@,
    {
        self.check_sim(sim)?;
        crate::limits::capacity("fabric queue pairs", self.qps.len(), 1, self.limits.queue_pairs)?;
        let n = match find(&sim.nodes, node) {
            Some(n) => n,
            None => return Err(Error::NotFound(node.to_owned())),
        };
        proof { lemma_index_of_key(sim.nodes@, n as int); }

        if find(&self.qps, key.as_str()).is_some() {
            return Err(Error::Conflict("queue pair key collision".to_owned()));
        }
        let ghost q0 = self.qps@;
        let q = Qp {
            key: key.clone(),
            node: node.to_owned(),
            generation: sim.nodes[n].generation,
            state: QpState::Reset,
            peer: None,
            receives: VecDeque::new(),
            completions: VecDeque::new(),
        };
        proof {
            lemma_push_key(q0, q);
            lemma_total_push(q0, queue_weight(), q);
        }
        self.qps.push(q);
        proof { assert(self.qps@.drop_last() =~= q0); }
        Ok(key)
    }

    pub fn state(&self, sim: &Simulation, qp: &str) -> (r: Result<QpState>)
        requires
            self.wf(),
            sim.wf(),
        ensures
            outcome(r) == self.qp_fault(*sim, qp@),
            r matches Ok(s) ==> s == keyed(self.qps(), qp@).state,
    {
        let i = self.qp(sim, qp)?;
        Ok(self.qps[i].state)
    }

    pub open spec fn connect_fault(&self, sim: Simulation, first: Seq<char>, second: Seq<char>) -> Option<ErrorKind> {
        if self.qp_fault(sim, first) is Some {
            self.qp_fault(sim, first)
        } else if self.qp_fault(sim, second) is Some {
            self.qp_fault(sim, second)
        } else if first == second || keyed(self.qps(), first).state != QpState::Reset
            || keyed(self.qps(), second).state != QpState::Reset {
            Some(ErrorKind::State)
        } else {
            None
        }
    }

    /// Connects two distinct queue pairs in `Reset` to each other; both become ready to send.
    pub fn connect(&mut self, sim: &Simulation, first: &str, second: &str) -> (r: Result<()>)
        requires
            old(self).wf(),
            sim.wf(),
        ensures
            final(self).wf(),
            r is Err ==> *final(self) == *old(self),
            outcome(r) == old(self).connect_fault(*sim, first@, second@),
            r is Ok ==> {
                let i = key_index(old(self).qps(), first@);
                let j = key_index(old(self).qps(), second@);
                &&& final(self).qps().len() == old(self).qps().len()
                &&& forall|k: int| 0 <= k < old(self).qps().len() && k != i && k != j
                    ==> #[trigger] final(self).qps()[k] == old(self).qps()[k]
                &&& qp_rewired(old(self).qps()[i], final(self).qps()[i], QpState::Rts, Some(second@))
                &&& qp_rewired(old(self).qps()[j], final(self).qps()[j], QpState::Rts, Some(first@))
                &&& final(self).memory() == old(self).memory()
                &&& final(self).queued_entries() == old(self).queued_entries()
                &&& final(self).payload_bytes() == old(self).payload_bytes()
                &&& final(self).simulation() == old(self).simulation() && final(self).capacity() == old(self).capacity()
                &&& final(self).limits() == old(self).limits()
            },
    {
        let i = self.qp(sim, first)?;
        let j = self.qp(sim, second)?;
        if str_eq(first, second) || self.qps[i].state != QpState::Reset || self.qps[j].state != QpState::Reset {
            return Err(Error::State("connect requires two distinct reset QPs".to_owned()));
        }
        let ghost q0 = self.qps@;
        self.qps[i].peer = Some(second.to_owned());
        self.qps[i].state = QpState::Rts;
        self.qps[j].peer = Some(first.to_owned());
        self.qps[j].state = QpState::Rts;
        proof {
            assert forall|k: int| 0 <= k < q0.len() implies #[trigger] self.qps@[k].key() == q0[k].key() by {}
            crate::keyed::lemma_same_keys(q0, self.qps@);
            assert forall|k: int| 0 <= k < q0.len() implies (#[trigger] queue_weight()(self.qps@[k])) == queue_weight()(q0[k]) by {}
            lemma_total_same(q0, self.qps@, queue_weight());
        }
        Ok(())
    }
}


/// The queue pairs left after `destroy_qp` removed the one at `i`: its peer,
/// when still present, is put in `Error` and disconnected.
pub open spec fn after_destroy(qps: Seq<Qp>, i: int, b: Seq<Qp>) -> bool {
    let rest = qps.remove(i);
    match qps[i].peer {
        Some(p) => if has_key(rest, p@) {
            let j = key_index(rest, p@);
            &&& b.len() == rest.len()
            &&& forall|k: int| 0 <= k < rest.len() && k != j ==> #[trigger] b[k] == rest[k]
            &&& qp_rewired(rest[j], b[j], QpState::Error, None)
        } else {
            b == rest
        },
        None => b == rest,
    }
}

impl Fabric {
    /// Removes a queue pair with its queued entries; a connected peer enters `Error`.
    pub fn destroy_qp(&mut self, qp: &str) -> (r: Result<()>)
        requires
            old(self).wf(),
        ensures
            final(self).wf(),
            r is Err ==> *final(self) == *old(self),
            r is Ok <==> has_key(old(self).qps(), qp@),
            r is Err ==> r->Err_0 is NotFound,
            r is Ok ==> after_destroy(old(self).qps(), key_index(old(self).qps(), qp@), final(self).qps())
                && final(self).queued_entries() == old(self).queued_entries()
                    - queue_weight()(keyed(old(self).qps(), qp@))
                && final(self).memory() == old(self).memory() && final(self).payload_bytes() == old(self).payload_bytes()
                && final(self).simulation() == old(self).simulation() && final(self).capacity() == old(self).capacity()
                && final(self).limits() == old(self).limits(),
    {
        let i = match find(&self.qps, qp) {
            Some(i) => i,
            None => return Err(Error::NotFound(qp.to_owned())),
        };
        let ghost q0 = self.qps@;
        proof {
            lemma_index_of_key(q0, i as int);
            lemma_total_remove(q0, queue_weight(), i as int);
            lemma_total_elem(q0, queue_weight(), i as int);
            crate::keyed::lemma_remove_key(q0, i as int);
        }
        let q = self.qps.remove(i);
        self.queued_entries = self.queued_entries - (q.receives.len() + q.completions.len());
        let ghost rest = self.qps@;
        proof {
            assert(rest =~= q0.remove(i as int));
            assert forall|k: int| 0 <= k < rest.len() implies (#[trigger] rest[k]).receives@.len() <= self.capacity
                && rest[k].completions@.len() <= self.capacity by {
                assert(rest[k] == q0[if k < i { k } else { k + 1 }]);
            }
        }
        if let Some(peer) = q.peer {
            if let Some(j) = find(&self.qps, peer.as_str()) {
                proof {
                    lemma_index_of_key(rest, j as int);
                }
                self.qps[j].state = QpState::Error;
                self.qps[j].peer = None;
                proof {
                    assert forall|k: int| 0 <= k < rest.len() implies #[trigger] self.qps@[k].key() == rest[k].key() by {}
                    crate::keyed::lemma_same_keys(rest, self.qps@);
                    assert forall|k: int| 0 <= k < rest.len() implies (#[trigger] queue_weight()(self.qps@[k])) == queue_weight()(rest[k]) by {}
                    lemma_total_same(rest, self.qps@, queue_weight());
                }
            }
        }
        Ok(())
    }

    pub open spec fn post_receive_fault(&self, sim: Simulation, qp: Seq<char>, mr: Seq<char>, start: usize, end: usize) -> Option<ErrorKind> {
        let q = keyed(self.qps(), qp);
        let m = keyed(self.memory(), mr);
        if self.qp_fault(sim, qp) is Some {
            self.qp_fault(sim, qp)
        } else if self.mr_fault(sim, mr) is Some {
            self.mr_fault(sim, mr)
        } else if !valid_range(start, end, m.bytes@.len()) {
            Some(ErrorKind::Invalid)
        } else if q.node@ != m.node@ {
            Some(ErrorKind::Conflict)
        } else if q.state != QpState::Rts || q.receives@.len() >= self.capacity() {
            Some(ErrorKind::State)
        } else if self.queued_entries() + 1 > self.limits().queued_entries {
            Some(ErrorKind::Conflict)
        } else {
            None
        }
    }

    /// Posts a receive for `range` of region `mr` on a ready queue pair of the same node.
    pub fn post_receive(&mut self, sim: &Simulation, qp: &str, mr: &str, range: core::ops::Range<usize>, wr_id: u64) -> (r: Result<()>)
        requires
            old(self).wf(),
            sim.wf(),
        ensures
            final(self).wf(),
            r is Err ==> *final(self) == *old(self),
            outcome(r) == old(self).post_receive_fault(*sim, qp@, mr@, range.start, range.end),
            r is Ok ==> {
                let i = key_index(old(self).qps(), qp@);
                let q = old(self).qps()[i];
                &&& others_kept(old(self).qps(), final(self).qps(), i)
                &&& final(self).qps()[i].receives@.len() == q.receives@.len() + 1
                &&& qp_queues(q, final(self).qps()[i], final(self).qps()[i].receives@, q.completions@)
                &&& final(self).qps()[i].receives@.drop_last() == q.receives@
                &&& final(self).qps()[i].receives@.last().mr@ == mr@
                &&& final(self).qps()[i].receives@.last().start == range.start
                &&& final(self).qps()[i].receives@.last().end == range.end
                &&& final(self).qps()[i].receives@.last().wr_id == wr_id
                &&& final(self).queued_entries() == old(self).queued_entries() + 1
                &&& final(self).memory() == old(self).memory() && final(self).payload_bytes() == old(self).payload_bytes()
                &&& final(self).simulation() == old(self).simulation() && final(self).capacity() == old(self).capacity()
                &&& final(self).limits() == old(self).limits()
            },
    {
        let i = self.qp(sim, qp)?;
        let k = self.mr(sim, mr)?;
        check_range(range.start, range.end, self.memory[k].bytes.len())?;
        if !str_eq(self.qps[i].node.as_str(), self.memory[k].node.as_str()) {
            return Err(Error::Conflict("memory is not in QP protection domain".to_owned()));
        }
        if self.qps[i].state != QpState::Rts || self.qps[i].receives.len() >= self.capacity {
            return Err(Error::State("QP not ready or receive queue full".to_owned()));
        }
        self.queue_capacity(1)?;
        let ghost q0 = self.qps@;
        let ghost old_q = q0[i as int];
        let rcv = Receive { mr: mr.to_owned(), start: range.start, end: range.end, wr_id };
        let mut taken = self.qps.remove(i);
        taken.receives.push_back(rcv);
        let ghost new_q = taken;
        self.qps.insert(i, taken);
        self.queued_entries = self.queued_entries + 1;
        proof {
            assert(self.qps@ =~= q0.update(i as int, new_q));
            crate::keyed::lemma_update_key(q0, i as int, new_q);
            lemma_total_update(q0, queue_weight(), i as int, new_q);
            assert(new_q.receives@.drop_last() =~= old_q.receives@);
        }
        Ok(())
    }

    /// Takes the oldest completion of a usable queue pair, if there is one.
    pub fn poll(&mut self, sim: &Simulation, qp: &str) -> (r: Result<Option<Completion>>)
        requires
            old(self).wf(),
            sim.wf(),
        ensures
            final(self).wf(),
            r is Err ==> *final(self) == *old(self),
            outcome(r) == old(self).qp_fault(*sim, qp@),
            r matches Ok(c) ==> {
                let i = key_index(old(self).qps(), qp@);
                let q = old(self).qps()[i];
                &&& others_kept(old(self).qps(), final(self).qps(), i)
                &&& (q.completions@.len() == 0 ==> c is None && final(self).qps()[i] == q
                    && final(self).queued_entries() == old(self).queued_entries())
                &&& (q.completions@.len() > 0 ==> c == Some(q.completions@[0])
                    && qp_queues(q, final(self).qps()[i], q.receives@, q.completions@.drop_first())
                    && final(self).queued_entries() == old(self).queued_entries() - 1)
                &&& final(self).memory() == old(self).memory() && final(self).payload_bytes() == old(self).payload_bytes()
                &&& final(self).simulation() == old(self).simulation() && final(self).capacity() == old(self).capacity()
                &&& final(self).limits() == old(self).limits()
            },
    {
        let i = self.qp(sim, qp)?;
        if self.qps[i].completions.len() == 0 {
            return Ok(None);
        }
        let ghost q0 = self.qps@;
        let mut taken = self.qps.remove(i);
        let c = taken.completions.pop_front();
        let ghost new_q = taken;
        self.qps.insert(i, taken);
        proof {
            assert(self.qps@ =~= q0.update(i as int, new_q));
            crate::keyed::lemma_update_key(q0, i as int, new_q);
            lemma_total_update(q0, queue_weight(), i as int, new_q);
            lemma_total_elem(q0, queue_weight(), i as int);
            assert(new_q.completions@ =~= q0[i as int].completions@.drop_first());
        }
        self.queued_entries = self.queued_entries - 1;
        Ok(c)
    }
}

/// `Ok` exactly when `start..end` is a range within `len` bytes.
pub fn check_range(start: usize, end: usize, len: usize) -> (r: Result<()>)
    ensures
        r is Ok <==> valid_range(start, end, len as nat),
        r is Err ==> r->Err_0 is Invalid,
{
    if start > end || end > len {
        return Err(Error::Invalid("memory range is out of bounds".to_owned()));
    }
    Ok(())
}


/// `a` with `data` written from `offset` on.
pub open spec fn splice(a: Seq<u8>, offset: int, data: Seq<u8>) -> Seq<u8> {
    a.subrange(0, offset) + data + a.subrange(offset + data.len(), a.len() as int)
}

/// `b` is region `a` with `data` written from `offset` on.
pub open spec fn region_written(a: Memory, b: Memory, offset: int, data: Seq<u8>) -> bool {
    &&& b.key == a.key && b.node == a.node && b.generation == a.generation
    &&& b.remote_write == a.remote_write && b.rkey == a.rkey
    &&& b.bytes@ == splice(a.bytes@, offset, data)
}

/// The bytes `start..end` of region `mr`.
pub open spec fn region_slice(f: Fabric, mr: Seq<char>, start: usize, end: usize) -> Seq<u8> {
    keyed(f.memory(), mr).bytes@.subrange(start as int, end as int)
}

impl Fabric {
    pub open spec fn send_fault(&self, sim: Simulation, qp: Seq<char>, mr: Seq<char>, start: usize, end: usize) -> Option<ErrorKind> {
        let s = keyed(self.qps(), qp);
        let p = s.peer->0@;
        let q = keyed(self.qps(), p);
        let m = keyed(self.memory(), mr);
        let rcv = q.receives@[0];
        if self.qp_fault(sim, qp) is Some {
            self.qp_fault(sim, qp)
        } else if s.peer is None {
            Some(ErrorKind::State)
        } else if self.qp_fault(sim, p) is Some {
            self.qp_fault(sim, p)
        } else if self.mr_fault(sim, mr) is Some {
            self.mr_fault(sim, mr)
        } else if !valid_range(start, end, m.bytes@.len()) {
            Some(ErrorKind::Invalid)
        } else if m.node@ != s.node@ {
            Some(ErrorKind::Conflict)
        } else if s.state != QpState::Rts || q.state != QpState::Rts {
            Some(ErrorKind::State)
        } else if s.completions@.len() >= self.capacity() || q.completions@.len() >= self.capacity() {
            Some(ErrorKind::Conflict)
        } else if q.receives@.len() == 0 {
            Some(ErrorKind::State)
        } else if self.mr_fault(sim, rcv.mr@) is Some {
            self.mr_fault(sim, rcv.mr@)
        } else if !valid_range(rcv.start, rcv.end, keyed(self.memory(), rcv.mr@).bytes@.len()) {
            Some(ErrorKind::Invalid)
        } else if end - start > rcv.end - rcv.start {
            Some(ErrorKind::Invalid)
        } else if self.queued_entries() + 1 > self.limits().queued_entries {
            Some(ErrorKind::Conflict)
        } else {
            transfer_fault(sim, s.node@, q.node@, (end - start) as usize)
        }
    }
}

/// Copies `v[start..end]`.
fn copy_range(v: &Vec<u8>, start: usize, end: usize) -> (r: Vec<u8>)
    requires
        start <= end <= v@.len(),
    ensures
        r@ == v@.subrange(start as int, end as int),
{
    let mut r: Vec<u8> = Vec::new();
    let mut i: usize = start;
    while i < end
        invariant
            start <= i <= end,
            r@ == v@.subrange(start as int, i as int),
        decreases end - i,
    {
        r.push(v[i]);
        proof { assert(r@ =~= v@.subrange(start as int, i + 1)); }
        i += 1;
    }
    r
}

/// Writes `data` into `v` from `offset` on.
fn write_at(v: &mut Vec<u8>, offset: usize, data: &Vec<u8>)
    requires
        offset + data@.len() <= old(v)@.len(),
    ensures
        final(v)@ == splice(old(v)@, offset as int, data@),
{
    let ghost a = v@;
    let n = v.len();
    let mut j: usize = 0;
    while j < data.len()
        invariant
            n == a.len(),
            offset + data@.len() <= a.len(),
            v@.len() == a.len(),
            j <= data@.len(),
            forall|k: int| 0 <= k < offset ==> #[trigger] v@[k] == a[k],
            forall|k: int| offset <= k < offset + j ==> #[trigger] v@[k] == data@[k - offset],
            forall|k: int| offset + j <= k < a.len() ==> #[trigger] v@[k] == a[k],
        decreases data@.len() - j,
    {
        v.set(offset + j, data[j]);
        j += 1;
    }
    proof { assert(v@ =~= splice(a, offset as int, data@)); }
}

impl Fabric {
    /// Writes `data` into region `k` from `offset` on.
    fn fill(&mut self, k: usize, offset: usize, data: &Vec<u8>)
        requires
            old(self).wf(),
            k < old(self).memory().len(),
            offset + data@.len() <= old(self).memory()[k as int].bytes@.len(),
        ensures
            final(self).wf(),
            others_kept(old(self).memory(), final(self).memory(), k as int),
            region_written(old(self).memory()[k as int], final(self).memory()[k as int], offset as int, data@),
            final(self).qps() == old(self).qps(),
            final(self).queued_entries() == old(self).queued_entries(),
            final(self).payload_bytes() == old(self).payload_bytes(),
            final(self).simulation() == old(self).simulation(),
            final(self).capacity() == old(self).capacity(),
            final(self).limits() == old(self).limits(),
    {
        let ghost m0 = self.memory@;
        let mut region = self.memory.remove(k);
        write_at(&mut region.bytes, offset, data);
        let ghost nr = region;
        self.memory.insert(k, region);
        proof {
            assert(self.memory@ =~= m0.update(k as int, nr));
            crate::keyed::lemma_update_key(m0, k as int, nr);
            lemma_total_update(m0, payload_weight(), k as int, nr);
        }
    }

    /// Appends a completion to queue pair `i`.
    fn complete(&mut self, i: usize, c: Completion)
        requires
            old(self).wf(),
            i < old(self).qps().len(),
            old(self).qps()[i as int].completions@.len() < old(self).capacity(),
            old(self).queued_entries() + 1 <= old(self).limits().queued_entries,
        ensures
            final(self).wf(),
            others_kept(old(self).qps(), final(self).qps(), i as int),
            qp_queues(old(self).qps()[i as int], final(self).qps()[i as int], old(self).qps()[i as int].receives@,
                old(self).qps()[i as int].completions@.push(c)),
            final(self).queued_entries() == old(self).queued_entries() + 1,
            final(self).memory() == old(self).memory(),
            final(self).payload_bytes() == old(self).payload_bytes(),
            final(self).simulation() == old(self).simulation(),
            final(self).capacity() == old(self).capacity(),
            final(self).limits() == old(self).limits(),
    {
        let ghost q0 = self.qps@;
        let mut taken = self.qps.remove(i);
        taken.completions.push_back(c);
        let ghost nq = taken;
        self.qps.insert(i, taken);
        self.queued_entries = self.queued_entries + 1;
        proof {
            assert(self.qps@ =~= q0.update(i as int, nq));
            crate::keyed::lemma_update_key(q0, i as int, nq);
            lemma_total_update(q0, queue_weight(), i as int, nq);
        }
    }

    /// Consumes the oldest receive of queue pair `i` and appends a completion.
    fn consume(&mut self, i: usize, c: Completion)
        requires
            old(self).wf(),
            i < old(self).qps().len(),
            old(self).qps()[i as int].receives@.len() > 0,
            old(self).qps()[i as int].completions@.len() < old(self).capacity(),
        ensures
            final(self).wf(),
            others_kept(old(self).qps(), final(self).qps(), i as int),
            qp_queues(old(self).qps()[i as int], final(self).qps()[i as int], old(self).qps()[i as int].receives@.drop_first(),
                old(self).qps()[i as int].completions@.push(c)),
            final(self).queued_entries() == old(self).queued_entries(),
            final(self).memory() == old(self).memory(),
            final(self).payload_bytes() == old(self).payload_bytes(),
            final(self).simulation() == old(self).simulation(),
            final(self).capacity() == old(self).capacity(),
            final(self).limits() == old(self).limits(),
    {
        let ghost q0 = self.qps@;
        let mut taken = self.qps.remove(i);
        let _ = taken.receives.pop_front();
        taken.completions.push_back(c);
        let ghost nq = taken;
        self.qps.insert(i, taken);
        proof {
            assert(self.qps@ =~= q0.update(i as int, nq));
            assert(nq.receives@ =~= q0[i as int].receives@.drop_first());
            crate::keyed::lemma_update_key(q0, i as int, nq);
            lemma_total_update(q0, queue_weight(), i as int, nq);
        }
    }

    /// Sends `range` of region `mr` from a connected queue pair into the peer's oldest
    /// posted receive, over the simulated fabric. Both sides get a completion.
    pub fn send(&mut self, sim: &mut Simulation, qp: &str, mr: &str, range: core::ops::Range<usize>, wr_id: u64) -> (r: Result<Transmission>)
        requires
            old(self).wf(),
            old(sim).wf(),
        ensures
            final(self).wf(),
            final(sim).wf(),
            r is Err ==> *final(self) == *old(self) && *final(sim) == *old(sim),
            old(self).send_fault(*old(sim), qp@, mr@, range.start, range.end) matches Some(k) ==> r is Err && r->Err_0.kind() == k,
            r is Ok ==> old(self).send_fault(*old(sim), qp@, mr@, range.start, range.end) is None,
            r is Err && old(self).send_fault(*old(sim), qp@, mr@, range.start, range.end) is None
                ==> crate::topology::transfer_refused(*old(sim), keyed(old(self).qps(), qp@).node@,
                    keyed(old(self).qps(), keyed(old(self).qps(), qp@).peer->0@).node@, (range.end - range.start) as usize, r->Err_0),
            old(self).send_fault(*old(sim), qp@, mr@, range.start, range.end) is None
                && crate::topology::transfer_feasible(*old(sim), keyed(old(self).qps(), qp@).node@,
                    keyed(old(self).qps(), keyed(old(self).qps(), qp@).peer->0@).node@, (range.end - range.start) as usize)
                ==> r is Ok,
            r matches Ok(t) ==> {
                let f = *old(self);
                let si = key_index(f.qps(), qp@);
                let peer = f.qps()[si].peer->0@;
                let ri = key_index(f.qps(), peer);
                let s = f.qps()[si];
                let q = f.qps()[ri];
                let rcv = q.receives@[0];
                let data = region_slice(f, mr@, range.start, range.end);
                let cs = Completion { wr_id, opcode: Opcode::Send, bytes: data.len() as usize, completed_ns: t.completed_ns };
                let cr = Completion { wr_id: rcv.wr_id, opcode: Opcode::Receive, bytes: data.len() as usize, completed_ns: t.completed_ns };
                let ti = key_index(f.memory(), rcv.mr@);
                &&& transferred(*old(sim), *final(sim), s.node@, q.node@, data.len() as usize, t)
                &&& others_kept(f.memory(), final(self).memory(), ti)
                &&& region_written(f.memory()[ti], final(self).memory()[ti], rcv.start as int, data)
                &&& final(self).qps().len() == f.qps().len()
                &&& forall|k: int| 0 <= k < f.qps().len() && k != si && k != ri ==> #[trigger] final(self).qps()[k] == f.qps()[k]
                &&& si != ri
                &&& qp_queues(s, final(self).qps()[si], s.receives@, s.completions@.push(cs))
                &&& qp_queues(q, final(self).qps()[ri], q.receives@.drop_first(), q.completions@.push(cr))
                &&& final(self).queued_entries() == f.queued_entries() + 1
            },
    {
        let si = self.qp(sim, qp)?;
        let peer_id = match &self.qps[si].peer {
            Some(p) => p.clone(),
            None => return Err(Error::State("QP is not connected".to_owned())),
        };
        let ri = self.qp(sim, peer_id.as_str())?;
        let mi = self.mr(sim, mr)?;
        check_range(range.start, range.end, self.memory[mi].bytes.len())?;
        if !str_eq(self.memory[mi].node.as_str(), self.qps[si].node.as_str()) {
            return Err(Error::Conflict("send memory has wrong protection domain".to_owned()));
        }
        if self.qps[si].state != QpState::Rts || self.qps[ri].state != QpState::Rts {
            return Err(Error::State("QP not ready".to_owned()));
        }
        if self.qps[si].completions.len() >= self.capacity || self.qps[ri].completions.len() >= self.capacity {
            return Err(Error::Conflict("completion queue full".to_owned()));
        }
        if self.qps[ri].receives.len() == 0 {
            return Err(Error::State("receiver not ready (RNR)".to_owned()));
        }
        let rmr = self.qps[ri].receives[0].mr.clone();
        let rstart = self.qps[ri].receives[0].start;
        let rend = self.qps[ri].receives[0].end;
        let rwr = self.qps[ri].receives[0].wr_id;
        let ti = self.mr(sim, rmr.as_str())?;
        check_range(rstart, rend, self.memory[ti].bytes.len())?;
        if range.end - range.start > rend - rstart {
            return Err(Error::Invalid("receive buffer too small".to_owned()));
        }
        self.queue_capacity(1)?;
        let data = copy_range(&self.memory[mi].bytes, range.start, range.end);
        let from = self.qps[si].node.clone();
        let to = self.qps[ri].node.clone();
        let transfer = sim.transfer(from.as_str(), to.as_str(), data.len())?;
        let ghost f = *self;
        self.fill(ti, rstart, &data);
        let len = data.len();
        let ghost f1 = *self;
        self.complete(si, Completion { wr_id, opcode: Opcode::Send, bytes: len, completed_ns: transfer.completed_ns });
        let ghost f2 = *self;
        proof {
            assert(f.qps()[ri as int].key() == peer_id@);
            assert(si != ri);
            assert(f2.qps()[ri as int] == f.qps()[ri as int]);
        }
        self.consume(ri, Completion { wr_id: rwr, opcode: Opcode::Receive, bytes: len, completed_ns: transfer.completed_ns });
        proof {
            let s = *self;
            assert forall|k: int| 0 <= k < f.qps().len() && k != si && k != ri implies #[trigger] s.qps()[k] == f.qps()[k] by {
                assert(f2.qps()[k] == f.qps()[k]);
            }
        }
        Ok(transfer)
    }
}


impl Fabric {
    pub open spec fn write_fault(&self, sim: Simulation, qp: Seq<char>, source_mr: Seq<char>, start: usize, end: usize,
        target_mr: Seq<char>, offset: usize, rkey: Seq<char>) -> Option<ErrorKind> {
        let s = keyed(self.qps(), qp);
        let p = s.peer->0@;
        let q = keyed(self.qps(), p);
        let src = keyed(self.memory(), source_mr);
        let dst = keyed(self.memory(), target_mr);
        let len = end - start;
        if self.qp_fault(sim, qp) is Some {
            self.qp_fault(sim, qp)
        } else if s.peer is None {
            Some(ErrorKind::State)
        } else if self.qp_fault(sim, p) is Some {
            self.qp_fault(sim, p)
        } else if self.mr_fault(sim, source_mr) is Some {
            self.mr_fault(sim, source_mr)
        } else if self.mr_fault(sim, target_mr) is Some {
            self.mr_fault(sim, target_mr)
        } else if !valid_range(start, end, src.bytes@.len()) {
            Some(ErrorKind::Invalid)
        } else if offset + len > usize::MAX {
            Some(ErrorKind::Invalid)
        } else if !valid_range(offset, (offset + len) as usize, dst.bytes@.len()) {
            Some(ErrorKind::Invalid)
        } else if s.state != QpState::Rts || q.state != QpState::Rts {
            Some(ErrorKind::State)
        } else if src.node@ != s.node@ || dst.node@ != q.node@ || !dst.remote_write || dst.rkey@ != rkey {
            Some(ErrorKind::Conflict)
        } else if s.completions@.len() >= self.capacity() {
            Some(ErrorKind::Conflict)
        } else if self.queued_entries() + 1 > self.limits().queued_entries {
            Some(ErrorKind::Conflict)
        } else {
            transfer_fault(sim, s.node@, q.node@, len as usize)
        }
    }

    /// Writes `source_range` of region `source_mr` into the peer's region `target_mr`
    /// at `target_offset`, which must allow remote writes under key `rkey`. Only the
    /// sender gets a completion.
    pub fn write(&mut self, sim: &mut Simulation, qp: &str, source_mr: &str, source_range: core::ops::Range<usize>,
        target_mr: &str, target_offset: usize, rkey: &str, wr_id: u64) -> (r: Result<Transmission>)
        requires
            old(self).wf(),
            old(sim).wf(),
        ensures
            final(self).wf(),
            final(sim).wf(),
            r is Err ==> *final(self) == *old(self) && *final(sim) == *old(sim),
            old(self).write_fault(*old(sim), qp@, source_mr@, source_range.start, source_range.end, target_mr@, target_offset, rkey@)
                matches Some(k) ==> r is Err && r->Err_0.kind() == k,
            r is Ok ==> old(self).write_fault(*old(sim), qp@, source_mr@, source_range.start, source_range.end, target_mr@,
                target_offset, rkey@) is None,
            r is Err && old(self).write_fault(*old(sim), qp@, source_mr@, source_range.start, source_range.end, target_mr@,
                target_offset, rkey@) is None
                ==> crate::topology::transfer_refused(*old(sim), keyed(old(self).qps(), qp@).node@,
                    keyed(old(self).qps(), keyed(old(self).qps(), qp@).peer->0@).node@,
                    (source_range.end - source_range.start) as usize, r->Err_0),
            old(self).write_fault(*old(sim), qp@, source_mr@, source_range.start, source_range.end, target_mr@,
                target_offset, rkey@) is None
                && crate::topology::transfer_feasible(*old(sim), keyed(old(self).qps(), qp@).node@,
                    keyed(old(self).qps(), keyed(old(self).qps(), qp@).peer->0@).node@,
                    (source_range.end - source_range.start) as usize)
                ==> r is Ok,
            r matches Ok(t) ==> {
                let f = *old(self);
                let si = key_index(f.qps(), qp@);
                let s = f.qps()[si];
                let q = keyed(f.qps(), s.peer->0@);
                let data = region_slice(f, source_mr@, source_range.start, source_range.end);
                let c = Completion { wr_id, opcode: Opcode::RdmaWrite, bytes: data.len() as usize, completed_ns: t.completed_ns };
                let ti = key_index(f.memory(), target_mr@);
                &&& transferred(*old(sim), *final(sim), s.node@, q.node@, data.len() as usize, t)
                &&& others_kept(f.memory(), final(self).memory(), ti)
                &&& region_written(f.memory()[ti], final(self).memory()[ti], target_offset as int, data)
                &&& others_kept(f.qps(), final(self).qps(), si)
                &&& qp_queues(s, final(self).qps()[si], s.receives@, s.completions@.push(c))
                &&& final(self).queued_entries() == f.queued_entries() + 1
            },
    {
        let si = self.qp(sim, qp)?;
        let peer_id = match &self.qps[si].peer {
            Some(p) => p.clone(),
            None => return Err(Error::State("QP not connected".to_owned())),
        };
        let ri = self.qp(sim, peer_id.as_str())?;
        let mi = self.mr(sim, source_mr)?;
        let ti = self.mr(sim, target_mr)?;
        check_range(source_range.start, source_range.end, self.memory[mi].bytes.len())?;
        let len = source_range.end - source_range.start;
        let end = match target_offset.checked_add(len) {
            Some(e) => e,
            None => return Err(Error::Invalid("offset overflow".to_owned())),
        };
        check_range(target_offset, end, self.memory[ti].bytes.len())?;
        if self.qps[si].state != QpState::Rts || self.qps[ri].state != QpState::Rts {
            return Err(Error::State("QP not ready".to_owned()));
        }
        if !str_eq(self.memory[mi].node.as_str(), self.qps[si].node.as_str())
            || !str_eq(self.memory[ti].node.as_str(), self.qps[ri].node.as_str())
            || !self.memory[ti].remote_write
            || !str_eq(self.memory[ti].rkey.as_str(), rkey) {
            return Err(Error::Conflict("RDMA protection error".to_owned()));
        }
        if self.qps[si].completions.len() >= self.capacity {
            return Err(Error::Conflict("completion queue full".to_owned()));
        }
        self.queue_capacity(1)?;
        let data = copy_range(&self.memory[mi].bytes, source_range.start, source_range.end);
        let from = self.qps[si].node.clone();
        let to = self.qps[ri].node.clone();
        let transfer = sim.transfer(from.as_str(), to.as_str(), data.len())?;
        self.fill(ti, target_offset, &data);
        let n = data.len();
        self.complete(si, Completion { wr_id, opcode: Opcode::RdmaWrite, bytes: n, completed_ns: transfer.completed_ns });
        Ok(transfer)
    }
}


/// A well-formed fabric never holds more than its budgets allow: queue pairs,
/// memory regions, queued entries and registered payload bytes.
pub proof fn lemma_within_budgets(f: Fabric)
    requires
        f.wf(),
    ensures
        f.qps().len() <= f.limits().queue_pairs,
        f.memory().len() <= f.limits().memory_regions,
        total(f.qps(), queue_weight()) <= f.limits().queued_entries,
        total(f.memory(), payload_weight()) <= f.limits().payload_bytes,
        forall|i: int| 0 <= i < f.qps().len() ==> (#[trigger] f.qps()[i]).receives@.len() <= f.capacity()
            && f.qps()[i].completions@.len() <= f.capacity(),
        forall|i: int| 0 <= i < f.qps().len() ==> ((#[trigger] f.qps()[i]).peer matches Some(p) ==> p@ != f.qps()[i].key@),
{
}

} // verus!
