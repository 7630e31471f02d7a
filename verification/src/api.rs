//! The simulation registry and every topology and lifecycle mutation.
//! All mutations validate before they commit: a refused call changes nothing.
#![verifier::loop_isolation(false)]
use vstd::prelude::*;
use crate::model::ErrorKind;
use crate::keyed::{Keyed, Owned, has_key, unique_keys, str_in, find, contains_str, str_eq, key_index, keyed, key_is_not, lemma_filter_push, key_not_in, owner_not_in, retain_keys, retain_owners, lemma_filter_unique, lemma_filter_same, lemma_str_in_push};
use crate::limits::Limits;
use crate::model::{same_sim, same_but_nodes, Error, Result, Instant, State, Role, InterfaceType, ServiceType, Resources, LinkSpec, NodeSpec, Node, NodeRuntime, Interface, Link, Service, InstructionData, InstructionState, Instruction, HistoryEntry, Checkpoint, Configuration, NodeConfig, InstructionConfig, Reservation, Simulation, Pairs, invalid, conflict, state_error, not_found, unsupported, entry_for, recorded, history_after, name, valid_name, keys_unique, pairs_put, pairs_insert, clone_pairs, clone_strings};
use crate::outside::{new_id, now};

verus! {

impl Keyed for Simulation {
    open spec fn key(&self) -> Seq<char> { self.id@ }
    fn key_str(&self) -> (r: &str) { self.id.as_str() }
}

/// Unicode `White_Space`, the characters that `str::trim` removes.
pub open spec fn is_white(c: char) -> bool {
    ('\u{9}' <= c <= '\u{d}') || c == ' ' || c == '\u{85}' || c == '\u{a0}' || c == '\u{1680}'
        || ('\u{2000}' <= c <= '\u{200a}') || c == '\u{2028}' || c == '\u{2029}'
        || c == '\u{202f}' || c == '\u{205f}' || c == '\u{3000}'
}

/// Empty once surrounding whitespace is trimmed.
pub open spec fn blank(s: Seq<char>) -> bool {
    forall|i: int| 0 <= i < s.len() ==> is_white(#[trigger] s[i])
}

pub fn is_blank(s: &str) -> (r: bool)
    ensures
        r == blank(s@),
{
    let n = s.unicode_len();
    let mut i: usize = 0;
    while i < n
        invariant
            n == s@.len(),
            i <= n,
            forall|j: int| 0 <= j < i ==> is_white(#[trigger] s@[j]),
        decreases n - i,
    {
        let c = s.get_char(i);
        let white = ('\u{9}' <= c && c <= '\u{d}') || c == ' ' || c == '\u{85}' || c == '\u{a0}'
            || c == '\u{1680}' || ('\u{2000}' <= c && c <= '\u{200a}') || c == '\u{2028}'
            || c == '\u{2029}' || c == '\u{202f}' || c == '\u{205f}' || c == '\u{3000}';
        if !white {
            return false;
        }
        i += 1;
    }
    true
}

pub open spec fn default_limits() -> Limits {
    Limits {
        interfaces: 32768,
        links: 16384,
        services: 4096,
        instructions: 4096,
        checkpoints: 16,
        data_bytes: 33554432,
        checkpoint_bytes: 67108864,
    }
}

impl Limits {
    pub fn standard() -> (r: Limits)
        ensures
            r == default_limits(),
    {
        Limits {
            interfaces: 32768,
            links: 16384,
            services: 4096,
            instructions: 4096,
            checkpoints: 16,
            data_bytes: 32 * 1024 * 1024,
            checkpoint_bytes: 64 * 1024 * 1024,
        }
    }
}

/// A freshly created simulation: inactive and empty.
pub open spec fn fresh(s: Simulation, name: Seq<char>) -> bool {
    &&& s.name@ == name
    &&& s.state == State::Inactive
    &&& s.limits == default_limits()
    &&& s.metadata is None && s.sleep_at is None && s.expires_at is None
    &&& !s.auto_oob_enabled && !s.enable_dhcp
    &&& s.nodes@.len() == 0 && s.interfaces@.len() == 0 && s.links@.len() == 0
    &&& s.services@.len() == 0 && s.instructions@.len() == 0 && s.checkpoints@.len() == 0
    &&& s.ztp_script is None && s.clock_ns == 0 && s.scheduling_frontier_ns == 0
    &&& s.history_limit == 10000 && s.next_mac == 0 && s.available@.len() == 0
    &&& s.history@.len() == 1 && entry_for(s.history@[0], s.id@, "created"@)
}

#[derive(Clone, Debug)]
pub struct Simulator {
    pub simulations: Vec<Simulation>,
    pub max_simulations: usize,
}

impl Simulator {
    pub open spec fn wf(&self) -> bool {
        &&& unique_keys(self.simulations@)
        &&& forall|i: int| 0 <= i < self.simulations@.len() ==> (#[trigger] self.simulations@[i]).wf()
    }

    pub fn with_capacity_limit(max_simulations: usize) -> (r: Simulator)
        ensures
            r.wf(),
            r.simulations@.len() == 0,
            r.max_simulations == max_simulations,
    {
        Simulator { simulations: Vec::new(), max_simulations }
    }

    /// A registry holding at most 128 simulations.
    pub fn new() -> (r: Simulator)
        ensures
            r.wf(),
            r.simulations@.len() == 0,
            r.max_simulations == 128,
    {
        Self::with_capacity_limit(128)
    }

    pub fn check_capacity(&self) -> (r: Result<()>)
        ensures
            r is Ok <==> self.simulations@.len() < self.max_simulations,
            r is Err ==> r->Err_0 is Conflict,
    {
        if self.simulations.len() >= self.max_simulations {
            return Err(conflict("simulation session capacity reached"));
        }
        Ok(())
    }

    /// Creates an empty inactive simulation and returns its identifier.
    pub fn create(&mut self, name: &str) -> (r: Result<String>)
        requires
            old(self).wf(),
        ensures
            final(self).wf(),
            final(self).max_simulations == old(self).max_simulations,
            old(self).simulations@.len() >= old(self).max_simulations ==> r is Err && r->Err_0 is Conflict,
            old(self).simulations@.len() < old(self).max_simulations && blank(name@)
                ==> r is Err && r->Err_0 is Invalid,
            r is Err && old(self).simulations@.len() < old(self).max_simulations && !blank(name@)
                ==> r->Err_0 is Conflict && old(self).simulations@.len() > 0,
            r is Err ==> *final(self) == *old(self),
            r matches Ok(id) ==> {
                &&& !has_key(old(self).simulations@, id@)
                &&& final(self).simulations@.len() == old(self).simulations@.len() + 1
                &&& final(self).simulations@.subrange(0, old(self).simulations@.len() as int) == old(self).simulations@
                &&& final(self).simulations@.last().id@ == id@
                &&& fresh(final(self).simulations@.last(), name@)
            },
    {
        let id = new_id();
        self.create_with_id(name, id)
    }

    /// `create` with the identifier already drawn.
    pub fn create_with_id(&mut self, name: &str, id: String) -> (r: Result<String>)
        requires
            old(self).wf(),
        ensures
            final(self).wf(),
            final(self).max_simulations == old(self).max_simulations,
            old(self).simulations@.len() >= old(self).max_simulations ==> r is Err && r->Err_0 is Conflict,
            old(self).simulations@.len() < old(self).max_simulations && blank(name@)
                ==> r is Err && r->Err_0 is Invalid,
            r is Err && old(self).simulations@.len() < old(self).max_simulations && !blank(name@)
                ==> r->Err_0 is Conflict && old(self).simulations@.len() > 0,
            r is Err ==> *final(self) == *old(self),
            r matches Ok(id) ==> {
                &&& !has_key(old(self).simulations@, id@)
                &&& final(self).simulations@.len() == old(self).simulations@.len() + 1
                &&& final(self).simulations@.subrange(0, old(self).simulations@.len() as int) == old(self).simulations@
                &&& final(self).simulations@.last().id@ == id@
                &&& fresh(final(self).simulations@.last(), name@)
            },
            old(self).simulations@.len() < old(self).max_simulations && !blank(name@)
                && !has_key(old(self).simulations@, id@) ==> r is Ok,
            r matches Ok(k) ==> k@ == id@,
    {
        self.check_capacity()?;
        if is_blank(name) {
            return Err(invalid("simulation name is empty"));
        }

        if find(&self.simulations, id.as_str()).is_some() {
            return Err(conflict("simulation identifier collision"));
        }
        let t = now();
        let mut sim = Simulation {
            limits: Limits::standard(),
            id: id.clone(),
            name: name.to_owned(),
            state: State::Inactive,
            created: t,
            modified: t,
            metadata: None,
            sleep_at: None,
            expires_at: None,
            auto_oob_enabled: false,
            enable_dhcp: false,
            nodes: Vec::new(),
            interfaces: Vec::new(),
            links: Vec::new(),
            services: Vec::new(),
            instructions: Vec::new(),
            checkpoints: Vec::new(),
            ztp_script: None,
            history: Vec::new(),
            clock_ns: 0,
            scheduling_frontier_ns: 0,
            history_limit: 10000,
            next_mac: 0,
            available: Vec::new(),
        };
        sim.event("created");
        proof {
            reveal_strlit("created");
        }
        let ghost before = self.simulations@;
        self.simulations.push(sim);
        proof {
            assert(self.simulations@.subrange(0, before.len() as int) =~= before);
            assert forall|i: int, j: int| 0 <= i < self.simulations@.len() && 0 <= j < self.simulations@.len() && i != j
                implies self.simulations@[i].key() != self.simulations@[j].key() by {
                if i < before.len() && j < before.len() {
                    assert(self.simulations@[i] == before[i]);
                    assert(self.simulations@[j] == before[j]);
                } else if i < before.len() {
                    assert(self.simulations@[i] == before[i]);
                } else {
                    assert(self.simulations@[j] == before[j]);
                }
            }
            assert forall|i: int| 0 <= i < self.simulations@.len() implies (#[trigger] self.simulations@[i]).wf() by {
                if i < before.len() {
                    assert(self.simulations@[i] == before[i]);
                }
            }
        }
        Ok(id)
    }
}


pub open spec fn matches_query(s: Simulation, name: Option<Seq<char>>, state: Option<State>) -> bool {
    (name matches Some(n) ==> s.name@ == n) && (state matches Some(t) ==> s.state == t)
}

/// Skips `offset` elements and keeps at most `limit` of the rest.
pub open spec fn page<T>(all: Seq<T>, offset: usize, limit: usize) -> Seq<T> {
    let start = if offset <= all.len() { offset as int } else { all.len() as int };
    let end = if limit <= all.len() - start { start + limit } else { all.len() as int };
    all.subrange(start, end)
}

pub open spec fn opt_view(o: Option<&str>) -> Option<Seq<char>> {
    match o {
        Some(s) => Some(s@),
        None => None,
    }
}

impl Simulator {
    pub fn get(&self, id: &str) -> (r: Result<&Simulation>)
        ensures
            r matches Ok(s) ==> self.simulations@.contains(*s) && s.id@ == id@,
            r is Err <==> !has_key(self.simulations@, id@),
            r is Err ==> r->Err_0 is NotFound,
    {
        match find(&self.simulations, id) {
            Some(i) => Ok(&self.simulations[i]),
            None => Err(Error::NotFound(id.to_owned())),
        }
    }

    /// The simulations that match the optional name and state, skipping
    /// `offset` of them and returning at most `limit`.
    pub fn list(&self, name: Option<&str>, state: Option<State>, offset: usize, limit: usize) -> (r: Vec<&Simulation>)
        ensures
            r@.map_values(|s: &Simulation| *s) == page(
                self.simulations@.filter(|s: Simulation| matches_query(s, opt_view(name), state)),
                offset,
                limit,
            ),
    {
        let ghost pred = |s: Simulation| matches_query(s, opt_view(name), state);
        let mut matched: Vec<&Simulation> = Vec::new();
        let mut i: usize = 0;
        while i < self.simulations.len()
            invariant
                pred == (|s: Simulation| matches_query(s, opt_view(name), state)),
                i <= self.simulations@.len(),
                matched@.map_values(|s: &Simulation| *s) == self.simulations@.take(i as int).filter(pred),
            decreases self.simulations@.len() - i,
        {
            let s = &self.simulations[i];
            let by_name = match name {
                Some(n) => str_eq(s.name.as_str(), n),
                None => true,
            };
            let by_state = match state {
                Some(t) => s.state == t,
                None => true,
            };
            proof {
                crate::keyed::lemma_filter_push(self.simulations@.take(i as int), pred, *s);
                assert(self.simulations@.take(i + 1) =~= self.simulations@.take(i as int).push(*s));
                assert(pred(*s) == (by_name && by_state));
            }
            if by_name && by_state {
                let ghost before = matched@;
                matched.push(s);
                proof {
                    assert(matched@.map_values(|s: &Simulation| *s) =~= before.map_values(|s: &Simulation| *s).push(*s));
                }
            }
            i += 1;
        }
        proof {
            assert(self.simulations@.take(self.simulations@.len() as int) =~= self.simulations@);
        }
        let ghost all = matched@.map_values(|s: &Simulation| *s);
        let start = if offset <= matched.len() { offset } else { matched.len() };
        let end = if limit <= matched.len() - start { start + limit } else { matched.len() };
        let mut r: Vec<&Simulation> = Vec::new();
        let mut k = start;
        while k < end
            invariant
                all == matched@.map_values(|s: &Simulation| *s),
                start <= k <= end <= matched@.len(),
                r@.map_values(|s: &Simulation| *s) == all.subrange(start as int, k as int),
            decreases end - k,
        {
            let ghost before = r@;
            r.push(matched[k]);
            proof {
                assert(r@.map_values(|s: &Simulation| *s) =~= before.map_values(|s: &Simulation| *s).push(all[k as int]));
                assert(all.subrange(start as int, k + 1) =~= all.subrange(start as int, k as int).push(all[k as int]));
            }
            k += 1;
        }
        r
    }

    /// Removes an inactive simulation.
    pub fn delete(&mut self, id: &str) -> (r: Result<()>)
        requires
            old(self).wf(),
        ensures
            final(self).wf(),
            final(self).max_simulations == old(self).max_simulations,
            !has_key(old(self).simulations@, id@) ==> r is Err && r->Err_0 is NotFound,
            r is Ok <==> has_key(old(self).simulations@, id@)
                && keyed(old(self).simulations@, id@).state == State::Inactive,
            r is Err ==> *final(self) == *old(self),
            r is Ok ==> final(self).simulations@ == old(self).simulations@.filter(key_is_not::<Simulation>(id@)),
    {
        let i = match find(&self.simulations, id) {
            Some(i) => i,
            None => return Err(Error::NotFound(id.to_owned())),
        };
        let ghost before = self.simulations@;
        proof {
            assert(key_index(before, id@) == i) by {
                let k = key_index(before, id@);
                assert(before[k].key() == id@);
            }
        }
        self.simulations[i].inactive()?;
        self.simulations.remove(i);
        proof {
            lemma_remove_unique_filter(before, i as int, id@);
            assert forall|a: int, b: int| 0 <= a < self.simulations@.len() && 0 <= b < self.simulations@.len() && a != b
                implies self.simulations@[a].key() != self.simulations@[b].key() by {
                let a2 = if a < i { a } else { a + 1 };
                let b2 = if b < i { b } else { b + 1 };
                assert(self.simulations@[a] == before[a2]);
                assert(self.simulations@[b] == before[b2]);
            }
            assert forall|a: int| 0 <= a < self.simulations@.len() implies (#[trigger] self.simulations@[a]).wf() by {
                let a2 = if a < i { a } else { a + 1 };
                assert(self.simulations@[a] == before[a2]);
            }
        }
        Ok(())
    }
}

/// Removing the element with a unique key equals filtering that key out.
pub proof fn lemma_remove_unique_filter<T: Keyed>(s: Seq<T>, i: int, k: Seq<char>)
    requires
        unique_keys(s),
        0 <= i < s.len(),
        s[i].key() == k,
    ensures
        s.remove(i) == s.filter(key_is_not::<T>(k)),
    decreases s.len(),
{
    reveal(Seq::filter);
    let pred = key_is_not::<T>(k);
    if i == s.len() - 1 {
        assert(s.drop_last() =~= s.remove(i));
        lemma_filter_all(s.drop_last(), k, pred);
    } else {
        let t = s.drop_last();
        assert forall|a: int, b: int| 0 <= a < t.len() && 0 <= b < t.len() && a != b implies t[a].key() != t[b].key() by {
            assert(t[a] == s[a] && t[b] == s[b]);
        }
        lemma_remove_unique_filter(t, i, k);
        assert(s.last().key() != k);
        assert(s.remove(i) =~= t.remove(i).push(s.last()));
    }
}

proof fn lemma_filter_all<T: Keyed>(s: Seq<T>, k: Seq<char>, pred: spec_fn(T) -> bool)
    requires
        pred == key_is_not::<T>(k),
        forall|j: int| 0 <= j < s.len() ==> s[j].key() != k,
    ensures
        s.filter(pred) == s,
    decreases s.len(),
{
    reveal(Seq::filter);
    if s.len() > 0 {
        lemma_filter_all(s.drop_last(), k, pred);
        assert(s.drop_last().push(s.last()) =~= s);
    }
}


/// `172.31.{h / 256}.{h % 256}/16`: the management lease for host number `h`.
pub open spec fn lease_text(h: nat) -> Seq<char> {
    crate::text::ascii_chars(
        seq![0x31u8, 0x37, 0x32, 0x2e, 0x33, 0x31, 0x2e] + crate::text::decimal(h / 256) + seq![0x2eu8]
            + crate::text::decimal(h % 256) + seq![0x2fu8, 0x31, 0x36],
    )
}

pub fn lease(h: u64) -> (r: String)
    ensures
        r@ == lease_text(h as nat),
{
    let mut v: Vec<u8> = Vec::new();
    v.push(0x31); v.push(0x37); v.push(0x32); v.push(0x2e); v.push(0x33); v.push(0x31); v.push(0x2e);
    crate::text::push_decimal(&mut v, h / 256);
    v.push(0x2e);
    crate::text::push_decimal(&mut v, h % 256);
    v.push(0x2f); v.push(0x31); v.push(0x36);
    proof {
        crate::text::lemma_decimal_ascii((h / 256) as nat);
        crate::text::lemma_decimal_ascii((h % 256) as nat);
        assert(v@ =~= seq![0x31u8, 0x37, 0x32, 0x2e, 0x33, 0x31, 0x2e] + crate::text::decimal((h / 256) as nat) + seq![0x2eu8]
            + crate::text::decimal((h % 256) as nat) + seq![0x2fu8, 0x31, 0x36]);
    }
    crate::text::ascii_string(v)
}

/// Every field but the management lease is equal.
pub open spec fn same_but_lease(a: Node, b: Node) -> bool {
    &&& a.id == b.id && a.simulation == b.simulation && a.spec == b.spec && a.state == b.state
    &&& a.generation == b.generation && a.user_data == b.user_data && a.meta_data == b.meta_data
    &&& a.manifest_fields == b.manifest_fields && a.runtime == b.runtime
}

/// Leases after assignment: none without DHCP; with DHCP every node has one,
/// existing leases are kept and each new lease is a `172.31.x.y/16` address
/// that no other node holds.
pub open spec fn leases_assigned(a: Seq<Node>, b: Seq<Node>, dhcp: bool) -> bool {
    &&& b.len() == a.len()
    &&& forall|i: int| 0 <= i < a.len() ==> same_but_lease(#[trigger] a[i], b[i])
    &&& !dhcp ==> forall|i: int| 0 <= i < b.len() ==> (#[trigger] b[i]).management_ip is None
    &&& dhcp ==> forall|i: int| 0 <= i < b.len() ==> (#[trigger] b[i]).management_ip is Some
    &&& dhcp ==> forall|i: int| 0 <= i < b.len() && (#[trigger] a[i]).management_ip is Some
        ==> b[i].management_ip == a[i].management_ip
    &&& dhcp ==> forall|i: int| 0 <= i < b.len() && (#[trigger] a[i]).management_ip is None
        ==> exists|h: nat| 2 <= h < 65536 && b[i].management_ip->0@ == lease_text(h)
    &&& dhcp ==> forall|i: int, j: int| 0 <= i < b.len() && 0 <= j < b.len() && i != j
        && (#[trigger] a[i]).management_ip is None ==> b[i].management_ip->0@ != (#[trigger] b[j]).management_ip->0@
}

pub open spec fn count_none(s: Seq<Option<String>>) -> nat
    decreases s.len(),
{
    if s.len() == 0 {
        0
    } else {
        count_none(s.drop_last()) + if s.last() is None { 1nat } else { 0nat }
    }
}

proof fn lemma_count_none_fill(s: Seq<Option<String>>, k: int, v: String)
    requires
        0 <= k < s.len(),
        s[k] is None,
    ensures
        count_none(s.update(k, Some(v))) + 1 == count_none(s),
    decreases s.len(),
{
    if k == s.len() - 1 {
        assert(s.update(k, Some(v)).drop_last() =~= s.drop_last());
    } else {
        lemma_count_none_fill(s.drop_last(), k, v);
        assert(s.update(k, Some(v)).drop_last() =~= s.drop_last().update(k, Some(v)));
    }
}

proof fn lemma_count_none_zero(s: Seq<Option<String>>, k: int)
    requires
        0 <= k < s.len(),
        s[k] is None,
    ensures
        count_none(s) > 0,
    decreases s.len(),
{
    if k < s.len() - 1 {
        lemma_count_none_zero(s.drop_last(), k);
    }
}

impl Simulation {
    /// Index of the node without a planned lease whose name sorts first.
    fn first_unleased(&self, plan: &Vec<Option<String>>) -> (r: Option<usize>)
        requires
            plan@.len() == self.nodes@.len(),
        ensures
            r matches Some(k) ==> k < plan@.len() && plan@[k as int] is None,
            r is None ==> forall|i: int| 0 <= i < plan@.len() ==> (#[trigger] plan@[i]) is Some,
    {
        let mut best: Option<usize> = None;
        let mut i: usize = 0;
        while i < plan.len()
            invariant
                plan@.len() == self.nodes@.len(),
                i <= plan@.len(),
                best matches Some(k) ==> k < plan@.len() && plan@[k as int] is None,
                best is None ==> forall|j: int| 0 <= j < i ==> (#[trigger] plan@[j]) is Some,
            decreases plan@.len() - i,
        {
            if plan[i].is_none() {
                match best {
                    None => { best = Some(i); }
                    Some(k) => {
                        if crate::text::str_lt(self.nodes[i].spec.name.as_str(), self.nodes[k].spec.name.as_str()) {
                            best = Some(i);
                        }
                    }
                }
            }
            i += 1;
        }
        best
    }

    /// Preserves leases when adding nodes and allocates new leases in name order.
    /// Fails only when the `172.31.0.0/16` host space is used up.
    #[verifier::loop_isolation(false)]
    pub fn assign_management_addresses(&mut self) -> (r: Result<()>)
        ensures
            r is Err ==> *final(self) == *old(self) && r->Err_0 is Conflict,
            r is Err ==> old(self).auto_oob_enabled && old(self).enable_dhcp,
            r is Ok ==> leases_assigned(old(self).nodes@, final(self).nodes@, old(self).auto_oob_enabled && old(self).enable_dhcp),
            ({
                let a = *old(self);
                let b = *final(self);
                &&& b.limits == a.limits && b.id == a.id && b.name == a.name && b.state == a.state
                &&& b.created == a.created && b.modified == a.modified && b.metadata == a.metadata
                &&& b.sleep_at == a.sleep_at && b.expires_at == a.expires_at
                &&& b.auto_oob_enabled == a.auto_oob_enabled && b.enable_dhcp == a.enable_dhcp
                &&& b.interfaces == a.interfaces && b.links == a.links && b.services == a.services
                &&& b.instructions == a.instructions && b.checkpoints == a.checkpoints
                &&& b.ztp_script == a.ztp_script && b.history == a.history && b.clock_ns == a.clock_ns
                &&& b.scheduling_frontier_ns == a.scheduling_frontier_ns
                &&& b.history_limit == a.history_limit && b.next_mac == a.next_mac && b.available == a.available
            }),
    {
        let dhcp = self.auto_oob_enabled && self.enable_dhcp;
        let ghost start = self.nodes@;
        let mut plan: Vec<Option<String>> = Vec::new();
        let mut used: Vec<String> = Vec::new();
        let mut i: usize = 0;
        while i < self.nodes.len()
            invariant
                start == self.nodes@,
                i <= start.len(),
                plan@.len() == i,
                !dhcp ==> forall|j: int| 0 <= j < i ==> (#[trigger] plan@[j]) is None,
                dhcp ==> forall|j: int| 0 <= j < i ==> #[trigger] plan@[j] == start[j].management_ip,
                forall|j: int| 0 <= j < i && (#[trigger] plan@[j]) is Some ==> str_in(used@, plan@[j]->0@),
            decreases start.len() - i,
        {
            if dhcp {
                match &self.nodes[i].management_ip {
                    Some(ip) => {
                        let ghost u0 = used@;
                        let ghost p0 = plan@;
                        used.push(ip.clone());
                        plan.push(Some(ip.clone()));
                        proof {
                            crate::keyed::lemma_str_in_push(u0, used@.last());
                            assert forall|j: int| 0 <= j < plan@.len() && (#[trigger] plan@[j]) is Some
                                implies str_in(used@, plan@[j]->0@) by {
                                if j < i {
                                    assert(plan@[j] == p0[j]);
                                }
                            }
                        }
                    }
                    None => {
                        plan.push(None);
                    }
                }
            } else {
                plan.push(None);
            }
            i += 1;
        }
        let mut host: u64 = 2;
        if dhcp {
            let mut next = self.first_unleased(&plan);
            while next.is_some()
                invariant
                    next matches Some(k) ==> k < plan@.len() && plan@[k as int] is None,
                    next is None ==> forall|j: int| 0 <= j < plan@.len() ==> (#[trigger] plan@[j]) is Some,
                    dhcp,
                    start == self.nodes@,
                    plan@.len() == start.len(),
                    2 <= host <= 65536,
                    forall|j: int| 0 <= j < plan@.len() && (#[trigger] plan@[j]) is Some ==> str_in(used@, plan@[j]->0@),
                    forall|j: int| 0 <= j < plan@.len() && start[j].management_ip is Some ==> #[trigger] plan@[j] == start[j].management_ip,
                    forall|j: int| 0 <= j < plan@.len() && (#[trigger] start[j]).management_ip is None && plan@[j] is Some
                        ==> exists|h: nat| 2 <= h < 65536 && plan@[j]->0@ == lease_text(h),
                    forall|a: int, b: int| 0 <= a < plan@.len() && 0 <= b < plan@.len() && a != b
                        && (#[trigger] start[a]).management_ip is None && plan@[a] is Some && (#[trigger] plan@[b]) is Some
                        ==> plan@[a]->0@ != plan@[b]->0@,
                decreases count_none(plan@),
            {
                let k = next.unwrap();
                let ghost before = plan@;
                let mut found: Option<String> = None;
                while found.is_none()
                    invariant
                        2 <= host <= 65536,
                        found matches Some(c) ==> (exists|h: nat| 2 <= h < 65536 && c@ == lease_text(h))
                            && !str_in(used@, c@),
                    decreases 65536 - host,
                {
                    if host >= 65536 {
                        return Err(conflict("management address space exhausted"));
                    }
                    let candidate = lease(host);
                    proof {
                        assert(2 <= host < 65536 && candidate@ == lease_text(host as nat));
                    }
                    host += 1;
                    if !contains_str(&used, candidate.as_str()) {
                        found = Some(candidate);
                    }
                }
                let ip = match found {
                    Some(c) => c,
                    None => { return Err(conflict("management address space exhausted")); }
                };
                let ghost u0 = used@;
                used.push(ip.clone());
                plan.set(k, Some(ip));
                proof {
                    lemma_count_none_fill(before, k as int, ip);
                    crate::keyed::lemma_str_in_push(u0, used@.last());
                    assert forall|j: int| 0 <= j < plan@.len() && (#[trigger] plan@[j]) is Some
                        implies str_in(used@, plan@[j]->0@) by {
                        if j != k {
                            assert(plan@[j] == before[j]);
                        }
                    }
                    assert forall|a: int, b: int| 0 <= a < plan@.len() && 0 <= b < plan@.len() && a != b
                        && (#[trigger] start[a]).management_ip is None && plan@[a] is Some && (#[trigger] plan@[b]) is Some
                        implies plan@[a]->0@ != plan@[b]->0@ by {
                        if a == k {
                            assert(plan@[b] == before[b]);
                            assert(str_in(u0, plan@[b]->0@));
                        } else if b == k {
                            assert(plan@[a] == before[a]);
                            assert(str_in(u0, plan@[a]->0@));
                        } else {
                            assert(plan@[a] == before[a] && plan@[b] == before[b]);
                        }
                    }
                }
                next = self.first_unleased(&plan);
            }
        }
        let mut i: usize = 0;
        while i < self.nodes.len()
            invariant
                self.limits == old(self).limits && self.id == old(self).id && self.name == old(self).name,
                self.state == old(self).state && self.created == old(self).created,
                self.modified == old(self).modified && self.metadata == old(self).metadata,
                self.sleep_at == old(self).sleep_at && self.expires_at == old(self).expires_at,
                self.auto_oob_enabled == old(self).auto_oob_enabled && self.enable_dhcp == old(self).enable_dhcp,
                self.interfaces == old(self).interfaces && self.links == old(self).links,
                self.services == old(self).services && self.instructions == old(self).instructions,
                self.checkpoints == old(self).checkpoints && self.ztp_script == old(self).ztp_script,
                self.history == old(self).history && self.clock_ns == old(self).clock_ns,
                self.scheduling_frontier_ns == old(self).scheduling_frontier_ns,
                self.history_limit == old(self).history_limit && self.next_mac == old(self).next_mac,
                self.available == old(self).available,
                start.len() == self.nodes@.len(),
                plan@.len() == start.len(),
                i <= start.len(),
                forall|j: int| 0 <= j < start.len() ==> same_but_lease(#[trigger] start[j], self.nodes@[j]),
                forall|j: int| 0 <= j < i ==> (#[trigger] self.nodes@[j]).management_ip == plan@[j],
                forall|j: int| i <= j < start.len() ==> #[trigger] self.nodes@[j] == start[j],
            decreases start.len() - i,
        {
            let lease_i = match &plan[i] {
                Some(ip) => Some(ip.clone()),
                None => None,
            };
            self.nodes[i].management_ip = lease_i;
            i += 1;
        }
        Ok(())
    }
}


/// A node as `create_node` first inserts it, before leases are assigned.
pub open spec fn new_node(n: Node, id: Seq<char>, simulation: String, spec: NodeSpec) -> bool {
    &&& n.id@ == id && n.simulation == simulation && n.spec == spec
    &&& n.state == State::Inactive && n.generation == 0
    &&& n.user_data is None && n.meta_data is None && n.management_ip is None
    &&& n.manifest_fields@.len() == 0
    &&& n.runtime.hostname == spec.name && n.runtime.files@.len() == 0
}

/// `b` is `a` with a node `id` of the given spec added, leases reassigned and
/// the event recorded.
pub open spec fn node_added(a: Simulation, b: Simulation, id: Seq<char>, spec: NodeSpec) -> bool {
    exists|mid: Simulation, n: Node| {
        &&& new_node(n, id, a.id, spec)
        &&& same_but_nodes(a, mid)
        &&& leases_assigned(a.nodes@.push(n), mid.nodes@, a.auto_oob_enabled && a.enable_dhcp)
        &&& recorded(mid, b, "node created"@)
    }
}

pub open spec fn name_taken(nodes: Seq<Node>, name: Seq<char>) -> bool {
    exists|i: int| 0 <= i < nodes.len() && (#[trigger] nodes[i]).spec.name@ == name
}

/// The conditions that `create_node` checks, in order.
pub open spec fn node_spec_ok(spec: NodeSpec) -> bool {
    &&& valid_name(crate::text::utf8(spec.name@))
    &&& spec.resources.cpu > 0 && spec.resources.memory > 0 && spec.resources.storage > 0
    &&& !blank(spec.image@)
}

impl Simulation {
    fn check_node_spec(spec: &NodeSpec) -> (r: Result<()>)
        ensures
            r is Ok <==> node_spec_ok(*spec),
            r is Err ==> r->Err_0 is Invalid,
    {
        name(spec.name.as_str())?;
        spec.resources.validate()?;
        if is_blank(spec.image.as_str()) {
            return Err(invalid("image is empty"));
        }
        Ok(())
    }

    fn name_used(&self, name: &str, except: Option<&str>) -> (r: bool)
        ensures
            except is None ==> r == name_taken(self.nodes@, name@),
            except matches Some(e) ==> r == exists|i: int| 0 <= i < self.nodes@.len()
                && (#[trigger] self.nodes@[i]).spec.name@ == name@ && self.nodes@[i].id@ != e@,
    {
        let mut i: usize = 0;
        while i < self.nodes.len()
            invariant
                i <= self.nodes@.len(),
                except is None ==> forall|j: int| 0 <= j < i ==> (#[trigger] self.nodes@[j]).spec.name@ != name@,
                except matches Some(e) ==> forall|j: int| 0 <= j < i
                    ==> (#[trigger] self.nodes@[j]).spec.name@ != name@ || self.nodes@[j].id@ == e@,
            decreases self.nodes@.len() - i,
        {
            if str_eq(self.nodes[i].spec.name.as_str(), name) {
                match except {
                    None => return true,
                    Some(e) => {
                        if !str_eq(self.nodes[i].id.as_str(), e) {
                            return true;
                        }
                    }
                }
            }
            i += 1;
        }
        false
    }

    /// Adds an inactive host or switch with an empty runtime.
    pub fn create_node(&mut self, spec: NodeSpec) -> (r: Result<String>)
        requires
            old(self).wf(),
        ensures
            final(self).wf(),
            r is Err ==> same_sim(*old(self), *final(self)),
            old(self).state != State::Inactive ==> r is Err && r->Err_0 is State,
            old(self).state == State::Inactive && !node_spec_ok(spec) ==> r is Err && r->Err_0 is Invalid,
            old(self).state == State::Inactive && node_spec_ok(spec) && old(self).nodes@.len() >= 4096
                ==> r is Err && r->Err_0 is Invalid,
            old(self).state == State::Inactive && node_spec_ok(spec) && old(self).nodes@.len() < 4096
                && name_taken(old(self).nodes@, spec.name@) ==> r is Err && r->Err_0 is Conflict,
            r is Ok ==> old(self).state == State::Inactive && node_spec_ok(spec)
                && old(self).nodes@.len() < 4096 && !name_taken(old(self).nodes@, spec.name@),
            r is Err && old(self).state == State::Inactive && node_spec_ok(spec) && old(self).nodes@.len() < 4096
                && !name_taken(old(self).nodes@, spec.name@) ==> r->Err_0 is Conflict,
            r matches Ok(id) ==> !has_key(old(self).nodes@, id@) && node_added(*old(self), *final(self), id@, spec),
    {
        let key = new_id();
        self.create_node_with_id(spec, key)
    }

    /// `create_node` with the identifier already drawn.
    pub fn create_node_with_id(&mut self, spec: NodeSpec, key: String) -> (r: Result<String>)
        requires
            old(self).wf(),
        ensures
            final(self).wf(),
            r is Err ==> same_sim(*old(self), *final(self)),
            old(self).state != State::Inactive ==> r is Err && r->Err_0 is State,
            old(self).state == State::Inactive && !node_spec_ok(spec) ==> r is Err && r->Err_0 is Invalid,
            old(self).state == State::Inactive && node_spec_ok(spec) && old(self).nodes@.len() >= 4096
                ==> r is Err && r->Err_0 is Invalid,
            old(self).state == State::Inactive && node_spec_ok(spec) && old(self).nodes@.len() < 4096
                && name_taken(old(self).nodes@, spec.name@) ==> r is Err && r->Err_0 is Conflict,
            r is Ok ==> old(self).state == State::Inactive && node_spec_ok(spec)
                && old(self).nodes@.len() < 4096 && !name_taken(old(self).nodes@, spec.name@),
            r matches Ok(id) ==> !has_key(old(self).nodes@, id@) && node_added(*old(self), *final(self), id@, spec),
            r is Err && old(self).state == State::Inactive && node_spec_ok(spec) && old(self).nodes@.len() < 4096
                && !name_taken(old(self).nodes@, spec.name@) ==> r->Err_0 is Conflict,
            old(self).state == State::Inactive && node_spec_ok(spec) && old(self).nodes@.len() < 4096
                && !name_taken(old(self).nodes@, spec.name@) && !has_key(old(self).nodes@, key@)
                && !(old(self).auto_oob_enabled && old(self).enable_dhcp) ==> r is Ok,
            r matches Ok(k) ==> k@ == key@,
    {
        let ghost spec0 = spec;
        self.inactive()?;
        Self::check_node_spec(&spec)?;
        if self.nodes.len() >= 4096 {
            return Err(invalid("4096 node limit"));
        }
        if self.name_used(spec.name.as_str(), None) {
            return Err(Error::Conflict(spec.name));
        }

        if find(&self.nodes, key.as_str()).is_some() {
            return Err(conflict("node identifier collision"));
        }
        let ghost old_nodes = self.nodes@;
        let node = Node {
            id: key.clone(),
            simulation: self.id.clone(),
            runtime: NodeRuntime { hostname: spec.name.clone(), files: Vec::new() },
            spec,
            state: State::Inactive,
            generation: 0,
            user_data: None,
            meta_data: None,
            management_ip: None,
            manifest_fields: Vec::new(),
        };
        let ghost n = node;
        self.nodes.push(node);
        proof {
            crate::keyed::lemma_push_key(old_nodes, n);
        }
        match self.assign_management_addresses() {
            Ok(()) => {}
            Err(e) => {
                self.nodes.pop();
                proof {
                    assert(self.nodes@ =~= old_nodes);
                }
                return Err(e);
            }
        }
        let ghost mid = *self;
        proof {
            let pushed = old_nodes.push(n);
            assert forall|i: int| 0 <= i < pushed.len() implies #[trigger] pushed[i].key() == self.nodes@[i].key() by {
                assert(same_but_lease(pushed[i], self.nodes@[i]));
            }
            crate::keyed::lemma_same_keys(pushed, self.nodes@);
        }
        self.event("node created");
        proof {
            let pushed = old_nodes.push(n);
            assert(forall|i: int| 0 <= i < pushed.len() ==> same_but_lease(#[trigger] pushed[i], self.nodes@[i]));
            assert forall|i: int, j: int| 0 <= i < self.nodes@.len() && 0 <= j < self.nodes@.len() && i != j
                implies self.nodes@[i].spec.name@ != self.nodes@[j].spec.name@ by {
                assert(same_but_lease(pushed[i], self.nodes@[i]));
                assert(same_but_lease(pushed[j], self.nodes@[j]));
                if i < old_nodes.len() && j < old_nodes.len() {
                    assert(pushed[i] == old_nodes[i] && pushed[j] == old_nodes[j]);
                } else if i < old_nodes.len() {
                    assert(pushed[i] == old_nodes[i]);
                } else {
                    assert(pushed[j] == old_nodes[j]);
                }
            }
            assert forall|i: int| 0 <= i < self.nodes@.len() implies keys_unique(#[trigger] self.nodes@[i].runtime.files@) by {
                assert(same_but_lease(pushed[i], self.nodes@[i]));
                if i < old_nodes.len() {
                    assert(pushed[i] == old_nodes[i]);
                }
            }
            assert(self.history@.len() <= self.history_limit);
            assert(n.spec == spec0);
            assert(new_node(n, key@, old(self).id, spec0));
            assert(!has_key(old(self).nodes@, key@));
            assert(same_but_nodes(*old(self), mid));
            assert(leases_assigned(old(self).nodes@.push(n), mid.nodes@, old(self).auto_oob_enabled && old(self).enable_dhcp));
            assert(recorded(mid, *self, "node created"@));
            assert(node_added(*old(self), *self, key@, spec0));
        }
        Ok(key)
    }
}


/// `b` is `a` with node `node` given `spec` and the event recorded.
pub open spec fn node_respecified(a: Simulation, b: Simulation, node: Seq<char>, spec: NodeSpec) -> bool {
    exists|mid: Simulation| {
        &&& same_but_nodes(a, mid)
        &&& mid.nodes@ == a.nodes@.update(key_index(a.nodes@, node), Node { spec: spec, ..keyed(a.nodes@, node) })
        &&& recorded(mid, b, "node updated"@)
    }
}

/// `02:` then the low five bytes of `n`, as colon-separated lower-case hex.
pub open spec fn mac_text(n: nat) -> Seq<char> {
    crate::text::ascii_chars(
        seq![0x30u8, 0x32] + seq![0x3au8] + crate::text::hex2(((n / 0x1_0000_0000) % 256) as u8)
            + seq![0x3au8] + crate::text::hex2(((n / 0x100_0000) % 256) as u8)
            + seq![0x3au8] + crate::text::hex2(((n / 0x1_0000) % 256) as u8)
            + seq![0x3au8] + crate::text::hex2(((n / 0x100) % 256) as u8)
            + seq![0x3au8] + crate::text::hex2((n % 256) as u8),
    )
}

pub fn mac(n: u64) -> (r: String)
    ensures
        r@ == mac_text(n as nat),
{
    let mut v: Vec<u8> = Vec::new();
    v.push(0x30);
    v.push(0x32);
    v.push(0x3a);
    crate::text::push_hex2(&mut v, ((n / 0x1_0000_0000) % 256) as u8);
    v.push(0x3a);
    crate::text::push_hex2(&mut v, ((n / 0x100_0000) % 256) as u8);
    v.push(0x3a);
    crate::text::push_hex2(&mut v, ((n / 0x1_0000) % 256) as u8);
    v.push(0x3a);
    crate::text::push_hex2(&mut v, ((n / 0x100) % 256) as u8);
    v.push(0x3a);
    crate::text::push_hex2(&mut v, (n % 256) as u8);
    proof {
        let w = seq![0x30u8, 0x32] + seq![0x3au8] + crate::text::hex2(((n / 0x1_0000_0000) % 256) as u8)
            + seq![0x3au8] + crate::text::hex2(((n / 0x100_0000) % 256) as u8)
            + seq![0x3au8] + crate::text::hex2(((n / 0x1_0000) % 256) as u8)
            + seq![0x3au8] + crate::text::hex2(((n / 0x100) % 256) as u8)
            + seq![0x3au8] + crate::text::hex2((n % 256) as u8);
        assert(v@ =~= w);
        assert(crate::text::all_ascii(v@));
    }
    crate::text::ascii_string(v)
}

/// Linux interface names: a valid name other than `lo`, at most 15 bytes.
pub open spec fn interface_name_ok(b: Seq<u8>) -> bool {
    valid_name(b) && b != seq![0x6cu8, 0x6f] && b.len() <= 15
}

pub open spec fn iface_name_taken(ifaces: Seq<Interface>, node: Seq<char>, name: Seq<char>) -> bool {
    exists|i: int| 0 <= i < ifaces.len() && (#[trigger] ifaces[i]).node@ == node && ifaces[i].name@ == name
}

pub open spec fn new_interface(i: Interface, id: Seq<char>, node: Seq<char>, name: Seq<char>, t: InterfaceType, mac: nat) -> bool {
    &&& i.id@ == id && i.node@ == node && i.name@ == name && i.interface_type == t
    &&& i.mac_address@ == mac_text(mac)
    &&& i.connection is None && i.split_parent is None && i.split_children@.len() == 0
}

/// `b` is `a` with the interface appended, one MAC used and the event recorded.
pub open spec fn interface_added(a: Simulation, b: Simulation, id: Seq<char>, node: Seq<char>, name: Seq<char>, t: InterfaceType) -> bool {
    exists|mid: Simulation, i: Interface| {
        &&& new_interface(i, id, node, name, t, a.next_mac as nat)
        &&& mid.interfaces@ == a.interfaces@.push(i)
        &&& mid.next_mac == a.next_mac + 1
        &&& mid.nodes == a.nodes && mid.links == a.links && mid.services == a.services
        &&& mid.instructions == a.instructions && mid.checkpoints == a.checkpoints
        &&& mid.history == a.history && mid.state == a.state && mid.available == a.available
        &&& mid.history_limit == a.history_limit && mid.id == a.id && mid.name == a.name
        &&& recorded(mid, b, "interface created"@)
    }
}

impl Simulation {
    /// Replaces a node's spec; the guest keeps its runtime until a rebuild.
    pub fn update_node(&mut self, node: &str, spec: NodeSpec) -> (r: Result<()>)
        requires
            old(self).wf(),
        ensures
            final(self).wf(),
            r is Err ==> same_sim(*old(self), *final(self)),
            old(self).state != State::Inactive ==> r is Err && r->Err_0 is State,
            old(self).state == State::Inactive && !has_key(old(self).nodes@, node@) ==> r is Err && r->Err_0 is NotFound,
            old(self).state == State::Inactive && has_key(old(self).nodes@, node@) && !node_spec_ok(spec)
                ==> r is Err && r->Err_0 is Invalid,
            r is Ok <==> old(self).state == State::Inactive && has_key(old(self).nodes@, node@) && node_spec_ok(spec)
                && !exists|i: int| 0 <= i < old(self).nodes@.len()
                    && (#[trigger] old(self).nodes@[i]).spec.name@ == spec.name@ && old(self).nodes@[i].id@ != node@,
            r is Ok ==> node_respecified(*old(self), *final(self), node@, spec),
    {
        let ghost spec0 = spec;
        self.inactive()?;
        let k = match find(&self.nodes, node) {
            Some(k) => k,
            None => return Err(Error::NotFound(node.to_owned())),
        };
        proof {
            let c = key_index(self.nodes@, node@);
            assert(self.nodes@[c].key() == node@);
            assert(c == k);
        }
        Self::check_node_spec(&spec)?;
        if self.name_used(spec.name.as_str(), Some(node)) {
            return Err(Error::Conflict(spec.name));
        }
        let ghost before = self.nodes@;
        self.nodes[k].spec = spec;
        let ghost mid = *self;
        proof {
            assert(self.nodes@ =~= before.update(k as int, Node { spec: spec0, ..before[k as int] }));
            crate::keyed::lemma_update_key(before, k as int, self.nodes@[k as int]);
            assert(self.nodes@ == before.update(k as int, self.nodes@[k as int]));
            assert forall|i: int, j: int| 0 <= i < self.nodes@.len() && 0 <= j < self.nodes@.len() && i != j
                implies self.nodes@[i].spec.name@ != self.nodes@[j].spec.name@ by {
                if i != k && j != k {
                    assert(self.nodes@[i] == before[i] && self.nodes@[j] == before[j]);
                } else if i == k {
                    assert(self.nodes@[j] == before[j]);
                    assert(before[j].id@ != node@);
                } else {
                    assert(self.nodes@[i] == before[i]);
                    assert(before[i].id@ != node@);
                }
            }
            assert forall|i: int| 0 <= i < self.nodes@.len() implies keys_unique(#[trigger] self.nodes@[i].runtime.files@) by {
                if i != k {
                    assert(self.nodes@[i] == before[i]);
                }
            }
        }
        self.event("node updated");
        proof {
            assert(key_index(old(self).nodes@, node@) == k);
            assert(keyed(old(self).nodes@, node@) == before[k as int]);
            assert(mid.nodes@ == old(self).nodes@.update(key_index(old(self).nodes@, node@),
                Node { spec: spec0, ..keyed(old(self).nodes@, node@) }));
            assert(same_but_nodes(*old(self), mid));
            assert(recorded(mid, *self, "node updated"@));
            assert(node_respecified(*old(self), *self, node@, spec0));
        }
        Ok(())
    }

    /// Adds an unconnected interface with the next locally administered MAC.
    pub fn create_interface(&mut self, node: &str, interface_name: &str, interface_type: InterfaceType) -> (r: Result<String>)
        requires
            old(self).wf(),
        ensures
            final(self).wf(),
            r is Err ==> same_sim(*old(self), *final(self)),
            old(self).state != State::Inactive ==> r is Err && r->Err_0 is State,
            old(self).state == State::Inactive && !has_key(old(self).nodes@, node@) ==> r is Err && r->Err_0 is NotFound,
            old(self).state == State::Inactive && has_key(old(self).nodes@, node@)
                && !interface_name_ok(crate::text::utf8(interface_name@)) ==> r is Err && r->Err_0 is Invalid,
            old(self).state == State::Inactive && has_key(old(self).nodes@, node@)
                && interface_name_ok(crate::text::utf8(interface_name@))
                && (iface_name_taken(old(self).interfaces@, node@, interface_name@) || old(self).next_mac >= 0x100_0000_0000
                    || old(self).interfaces@.len() + 1 > old(self).limits.interfaces)
                ==> r is Err && r->Err_0 is Conflict,
            r is Ok ==> old(self).state == State::Inactive && has_key(old(self).nodes@, node@)
                && interface_name_ok(crate::text::utf8(interface_name@))
                && !iface_name_taken(old(self).interfaces@, node@, interface_name@)
                && old(self).next_mac < 0x100_0000_0000 && old(self).interfaces@.len() + 1 <= old(self).limits.interfaces,
            r matches Ok(id) ==> !has_key(old(self).interfaces@, id@)
                && interface_added(*old(self), *final(self), id@, node@, interface_name@, interface_type),
            r is Err && old(self).state == State::Inactive && has_key(old(self).nodes@, node@)
                && interface_name_ok(crate::text::utf8(interface_name@))
                && !iface_name_taken(old(self).interfaces@, node@, interface_name@)
                && old(self).next_mac < 0x100_0000_0000 && old(self).interfaces@.len() + 1 <= old(self).limits.interfaces
                ==> r->Err_0 is Conflict,
    {
        let key = new_id();
        self.create_interface_with_id(node, interface_name, interface_type, key)
    }

    /// `create_interface` with the identifier already drawn.
    pub fn create_interface_with_id(&mut self, node: &str, interface_name: &str, interface_type: InterfaceType, key: String) -> (r: Result<String>)
        requires
            old(self).wf(),
        ensures
            final(self).wf(),
            r is Err ==> same_sim(*old(self), *final(self)),
            old(self).state != State::Inactive ==> r is Err && r->Err_0 is State,
            old(self).state == State::Inactive && !has_key(old(self).nodes@, node@) ==> r is Err && r->Err_0 is NotFound,
            old(self).state == State::Inactive && has_key(old(self).nodes@, node@)
                && !interface_name_ok(crate::text::utf8(interface_name@)) ==> r is Err && r->Err_0 is Invalid,
            old(self).state == State::Inactive && has_key(old(self).nodes@, node@)
                && interface_name_ok(crate::text::utf8(interface_name@))
                && (iface_name_taken(old(self).interfaces@, node@, interface_name@) || old(self).next_mac >= 0x100_0000_0000
                    || old(self).interfaces@.len() + 1 > old(self).limits.interfaces)
                ==> r is Err && r->Err_0 is Conflict,
            r is Ok ==> old(self).state == State::Inactive && has_key(old(self).nodes@, node@)
                && interface_name_ok(crate::text::utf8(interface_name@))
                && !iface_name_taken(old(self).interfaces@, node@, interface_name@)
                && old(self).next_mac < 0x100_0000_0000 && old(self).interfaces@.len() + 1 <= old(self).limits.interfaces,
            r matches Ok(id) ==> !has_key(old(self).interfaces@, id@)
                && interface_added(*old(self), *final(self), id@, node@, interface_name@, interface_type),
            r is Err && old(self).state == State::Inactive && has_key(old(self).nodes@, node@)
                && interface_name_ok(crate::text::utf8(interface_name@))
                && !iface_name_taken(old(self).interfaces@, node@, interface_name@)
                && old(self).next_mac < 0x100_0000_0000 && old(self).interfaces@.len() + 1 <= old(self).limits.interfaces
                ==> r->Err_0 is Conflict,
            old(self).state == State::Inactive && has_key(old(self).nodes@, node@)
                && interface_name_ok(crate::text::utf8(interface_name@))
                && !iface_name_taken(old(self).interfaces@, node@, interface_name@)
                && old(self).next_mac < 0x100_0000_0000 && old(self).interfaces@.len() + 1 <= old(self).limits.interfaces
                && !has_key(old(self).interfaces@, key@) ==> r is Ok,
            r matches Ok(k) ==> k@ == key@,
    {
        self.inactive()?;
        self.node(node)?;
        name(interface_name)?;
        let b = crate::text::bytes(interface_name);
        if (b.len() == 2 && b[0] == 0x6c && b[1] == 0x6f) || b.len() > 15 {
            proof {
                if b@.len() == 2 && b@[0] == 0x6c && b@[1] == 0x6f {
                    assert(b@ =~= seq![0x6cu8, 0x6f]);
                }
            }
            return Err(invalid("Linux interface names must be <= 15 bytes"));
        }
        let mut i: usize = 0;
        while i < self.interfaces.len()
            invariant
                i <= self.interfaces@.len(),
                forall|j: int| 0 <= j < i ==> !((#[trigger] self.interfaces@[j]).node@ == node@
                    && self.interfaces@[j].name@ == interface_name@),
            decreases self.interfaces@.len() - i,
        {
            if str_eq(self.interfaces[i].node.as_str(), node) && str_eq(self.interfaces[i].name.as_str(), interface_name) {
                return Err(conflict("interface name already used on node"));
            }
            i += 1;
        }
        if self.next_mac >= 0x100_0000_0000 {
            return Err(conflict("MAC address space exhausted"));
        }
        crate::limits::capacity("interfaces capacity exceeded", self.interfaces.len(), 1, self.limits.interfaces)?;

        if find(&self.interfaces, key.as_str()).is_some() {
            return Err(conflict("interface identifier collision"));
        }
        let address = mac(self.next_mac);
        let ghost a = *self;
        let iface = Interface {
            id: key.clone(),
            node: node.to_owned(),
            name: interface_name.to_owned(),
            interface_type,
            mac_address: address,
            connection: None,
            split_parent: None,
            split_children: Vec::new(),
        };
        let ghost ig = iface;
        self.next_mac = self.next_mac + 1;
        self.interfaces.push(iface);
        let ghost mid = *self;
        proof {
            crate::keyed::lemma_push_key(a.interfaces@, ig);
            assert(new_interface(ig, key@, node@, interface_name@, interface_type, a.next_mac as nat));
            assert forall|x: int, y: int| 0 <= x < self.interfaces@.len() && 0 <= y < self.interfaces@.len() && x != y
                && self.interfaces@[x].node@ == self.interfaces@[y].node@
                implies self.interfaces@[x].name@ != self.interfaces@[y].name@ by {
                if x < a.interfaces@.len() && y < a.interfaces@.len() {
                    assert(self.interfaces@[x] == a.interfaces@[x] && self.interfaces@[y] == a.interfaces@[y]);
                } else if x < a.interfaces@.len() {
                    assert(self.interfaces@[x] == a.interfaces@[x]);
                } else {
                    assert(self.interfaces@[y] == a.interfaces@[y]);
                }
            }
            assert forall|x: int| 0 <= x < self.interfaces@.len() implies has_key(self.nodes@, #[trigger] self.interfaces@[x].node@) by {
                if x < a.interfaces@.len() {
                    assert(self.interfaces@[x] == a.interfaces@[x]);
                }
            }
        }
        self.event("interface created");
        proof {
            assert(interface_added(a, *self, key@, node@, interface_name@, interface_type));
        }
        Ok(key)
    }
}


/// Does the link end on one of the `gone` interfaces?
pub open spec fn touches(l: Link, gone: Seq<String>) -> bool {
    str_in(gone, l.interfaces[0]@) || str_in(gone, l.interfaces[1]@)
}

pub open spec fn link_kept(gone: Seq<String>) -> spec_fn(Link) -> bool {
    |l: Link| !touches(l, gone)
}

/// An end of a link that touches `gone`.
pub open spec fn dropped_end(links: Seq<Link>, gone: Seq<String>, x: Seq<char>) -> bool {
    exists|i: int| 0 <= i < links.len() && touches(#[trigger] links[i], gone)
        && (links[i].interfaces[0]@ == x || links[i].interfaces[1]@ == x)
}

/// The interfaces with the connection of every dropped link end cleared.
pub open spec fn cleared(v: Seq<Interface>, links: Seq<Link>, gone: Seq<String>) -> Seq<Interface> {
    Seq::new(v.len(), |i: int| if dropped_end(links, gone, v[i].id@) {
        Interface { connection: None, ..v[i] }
    } else {
        v[i]
    })
}

pub open spec fn dropped_link_id(links: Seq<Link>, gone: Seq<String>, x: Seq<char>) -> bool {
    exists|i: int| 0 <= i < links.len() && touches(#[trigger] links[i], gone) && links[i].id@ == x
}

/// `b` is `a` without the `gone` interfaces, the links touching them (whose
/// ends lose their connection), the services on them and the reservations of
/// the dropped links.
pub open spec fn interfaces_removed(a: Simulation, b: Simulation, gone: Seq<String>) -> bool {
    &&& b.links@ == a.links@.filter(link_kept(gone))
    &&& b.interfaces@ == cleared(a.interfaces@, a.links@, gone).filter(key_not_in::<Interface>(gone))
    &&& b.services@ == a.services@.filter(owner_not_in::<Service>(gone))
    &&& b.available@ == a.available@.filter(|r: Reservation| !dropped_link_id(a.links@, gone, r.link@))
    &&& same_but_topology(a, b)
    &&& b.nodes == a.nodes && b.instructions == a.instructions && b.checkpoints == a.checkpoints
    &&& b.history == a.history && b.modified == a.modified
}

/// Every field but nodes, interfaces, links, services, instructions,
/// checkpoints, reservations and history is equal.
pub open spec fn same_but_topology(a: Simulation, b: Simulation) -> bool {
    &&& a.limits == b.limits && a.id == b.id && a.name == b.name && a.state == b.state
    &&& a.created == b.created && a.metadata == b.metadata
    &&& a.sleep_at == b.sleep_at && a.expires_at == b.expires_at
    &&& a.auto_oob_enabled == b.auto_oob_enabled && a.enable_dhcp == b.enable_dhcp
    &&& a.ztp_script == b.ztp_script && a.clock_ns == b.clock_ns
    &&& a.scheduling_frontier_ns == b.scheduling_frontier_ns
    &&& a.history_limit == b.history_limit && a.next_mac == b.next_mac
}

impl Simulation {
    /// Removes interfaces with their links (clearing both link ends) and services.
    pub(crate) fn remove_interfaces(&mut self, gone: &Vec<String>)
        requires
            old(self).wf(),
        ensures
            interfaces_removed(*old(self), *final(self), gone@),
            ({
                let s = *final(self);
                &&& unique_keys(s.interfaces@) && unique_keys(s.links@) && unique_keys(s.services@)
                &&& forall|i: int| 0 <= i < s.interfaces@.len() ==> has_key(old(self).nodes@, #[trigger] s.interfaces@[i].node@)
                &&& forall|i: int, j: int| 0 <= i < s.interfaces@.len() && 0 <= j < s.interfaces@.len() && i != j
                    && s.interfaces@[i].node@ == s.interfaces@[j].node@ ==> s.interfaces@[i].name@ != s.interfaces@[j].name@
                &&& forall|i: int| 0 <= i < s.links@.len() ==> {
                    &&& has_key(s.interfaces@, #[trigger] s.links@[i].interfaces[0]@)
                    &&& has_key(s.interfaces@, s.links@[i].interfaces[1]@)
                }
                &&& forall|i: int| 0 <= i < s.services@.len() ==> has_key(s.interfaces@, #[trigger] s.services@[i].interface@)
                &&& forall|k: Seq<char>| has_key(s.interfaces@, k) <==> has_key(old(self).interfaces@, k) && !str_in(gone@, k)
            }),
    {
        let ghost a = *self;
        // Links that touch a removed interface, and their ends.
        let mut dropped: Vec<String> = Vec::new();
        let mut ends: Vec<String> = Vec::new();
        let mut i: usize = 0;
        while i < self.links.len()
            invariant
                *self == a,
                i <= a.links@.len(),
                forall|x: Seq<char>| str_in(dropped@, x) <==> exists|j: int| 0 <= j < i && touches(#[trigger] a.links@[j], gone@) && a.links@[j].id@ == x,
                forall|x: Seq<char>| str_in(ends@, x) <==> exists|j: int| 0 <= j < i && touches(#[trigger] a.links@[j], gone@)
                    && (a.links@[j].interfaces[0]@ == x || a.links@[j].interfaces[1]@ == x),
            decreases a.links@.len() - i,
        {
            let l = &self.links[i];
            let hit = contains_str(gone, l.interfaces[0].as_str()) || contains_str(gone, l.interfaces[1].as_str());
            if hit {
                let ghost d0 = dropped@;
                let ghost e0 = ends@;
                dropped.push(l.id.clone());
                ends.push(l.interfaces[0].clone());
                let ghost e1 = ends@;
                ends.push(l.interfaces[1].clone());
                proof {
                    lemma_str_in_push(d0, dropped@.last());
                    lemma_str_in_push(e0, e1.last());
                    lemma_str_in_push(e1, ends@.last());
                    assert forall|x: Seq<char>| str_in(dropped@, x) <==> exists|j: int| 0 <= j < i + 1 && touches(#[trigger] a.links@[j], gone@) && a.links@[j].id@ == x by {
                        if str_in(dropped@, x) && !str_in(d0, x) {
                            assert(touches(a.links@[i as int], gone@));
                        }
                        if exists|j: int| 0 <= j < i + 1 && touches(#[trigger] a.links@[j], gone@) && a.links@[j].id@ == x {
                            let j = choose|j: int| 0 <= j < i + 1 && touches(#[trigger] a.links@[j], gone@) && a.links@[j].id@ == x;
                            if j < i {
                            }
                        }
                    }
                    assert forall|x: Seq<char>| str_in(ends@, x) <==> exists|j: int| 0 <= j < i + 1 && touches(#[trigger] a.links@[j], gone@)
                        && (a.links@[j].interfaces[0]@ == x || a.links@[j].interfaces[1]@ == x) by {
                        if str_in(ends@, x) && !str_in(e0, x) {
                            assert(touches(a.links@[i as int], gone@));
                        }
                        if exists|j: int| 0 <= j < i + 1 && touches(#[trigger] a.links@[j], gone@)
                            && (a.links@[j].interfaces[0]@ == x || a.links@[j].interfaces[1]@ == x) {
                            let j = choose|j: int| 0 <= j < i + 1 && touches(#[trigger] a.links@[j], gone@)
                                && (a.links@[j].interfaces[0]@ == x || a.links@[j].interfaces[1]@ == x);
                            if j < i {
                            }
                        }
                    }
                }
            } else {
                proof {
                    assert forall|x: Seq<char>| str_in(dropped@, x) <==> exists|j: int| 0 <= j < i + 1 && touches(#[trigger] a.links@[j], gone@) && a.links@[j].id@ == x by {
                        if exists|j: int| 0 <= j < i + 1 && touches(#[trigger] a.links@[j], gone@) && a.links@[j].id@ == x {
                            let j = choose|j: int| 0 <= j < i + 1 && touches(#[trigger] a.links@[j], gone@) && a.links@[j].id@ == x;
                            assert(j != i);
                        }
                    }
                    assert forall|x: Seq<char>| str_in(ends@, x) <==> exists|j: int| 0 <= j < i + 1 && touches(#[trigger] a.links@[j], gone@)
                        && (a.links@[j].interfaces[0]@ == x || a.links@[j].interfaces[1]@ == x) by {
                        if exists|j: int| 0 <= j < i + 1 && touches(#[trigger] a.links@[j], gone@)
                            && (a.links@[j].interfaces[0]@ == x || a.links@[j].interfaces[1]@ == x) {
                            let j = choose|j: int| 0 <= j < i + 1 && touches(#[trigger] a.links@[j], gone@)
                                && (a.links@[j].interfaces[0]@ == x || a.links@[j].interfaces[1]@ == x);
                            assert(j != i);
                        }
                    }
                }
            }
            i += 1;
        }
        // Clear the connection of every end of a dropped link.
        let mut i: usize = 0;
        while i < self.interfaces.len()
            invariant
                i <= a.interfaces@.len(),
                self.interfaces@.len() == a.interfaces@.len(),
                forall|x: Seq<char>| str_in(ends@, x) <==> dropped_end(a.links@, gone@, x),
                forall|j: int| 0 <= j < i ==> #[trigger] self.interfaces@[j] == cleared(a.interfaces@, a.links@, gone@)[j],
                forall|j: int| i <= j < a.interfaces@.len() ==> #[trigger] self.interfaces@[j] == a.interfaces@[j],
                self.links == a.links && self.nodes == a.nodes && self.services == a.services,
                self.available == a.available && self.instructions == a.instructions,
                self.checkpoints == a.checkpoints && self.history == a.history,
                same_but_topology(a, *self) && self.modified == a.modified,
            decreases a.interfaces@.len() - i,
        {
            if contains_str(&ends, self.interfaces[i].id.as_str()) {
                self.interfaces[i].connection = None;
            }
            i += 1;
        }
        proof {
            assert(self.interfaces@ =~= cleared(a.interfaces@, a.links@, gone@));
        }
        let ghost c = self.interfaces@;
        let mut interfaces = Vec::new();
        std::mem::swap(&mut interfaces, &mut self.interfaces);
        self.interfaces = retain_keys(interfaces, gone);
        let mut links = Vec::new();
        std::mem::swap(&mut links, &mut self.links);
        let kept_links = retain_keys(links, &dropped);
        proof {
            assert forall|j: int| 0 <= j < a.links@.len() implies
                key_not_in::<Link>(dropped@)(#[trigger] a.links@[j]) == link_kept(gone@)(a.links@[j]) by {
                if touches(a.links@[j], gone@) {
                    assert(str_in(dropped@, a.links@[j].id@));
                } else if str_in(dropped@, a.links@[j].id@) {
                    let k = choose|k: int| 0 <= k < a.links@.len() && touches(#[trigger] a.links@[k], gone@) && a.links@[k].id@ == a.links@[j].id@;
                    assert(a.links@[k].key() == a.links@[j].key());
                }
            }
            lemma_filter_same(a.links@, key_not_in::<Link>(dropped@), link_kept(gone@));
        }
        self.links = kept_links;
        let mut services = Vec::new();
        std::mem::swap(&mut services, &mut self.services);
        self.services = retain_owners(services, gone);
        let mut available = Vec::new();
        std::mem::swap(&mut available, &mut self.available);
        let kept = retain_keys(available, &dropped);
        proof {
            let q = |r: Reservation| !dropped_link_id(a.links@, gone@, r.link@);
            assert forall|j: int| 0 <= j < a.available@.len() implies
                key_not_in::<Reservation>(dropped@)(#[trigger] a.available@[j]) == q(a.available@[j]) by {}
            lemma_filter_same(a.available@, key_not_in::<Reservation>(dropped@), q);
        }
        self.available = kept;
        proof {
            // Keys of the cleared interfaces are those of the old ones.
            crate::keyed::lemma_same_keys(a.interfaces@, c);
            lemma_filter_unique(c, key_not_in::<Interface>(gone@));
            lemma_filter_unique(a.links@, link_kept(gone@));
            lemma_filter_unique(a.services@, owner_not_in::<Service>(gone@));
            let s = *self;
            assert forall|i: int| 0 <= i < s.interfaces@.len() implies has_key(a.nodes@, #[trigger] s.interfaces@[i].node@) by {
                let x = s.interfaces@[i];
                let j = choose|j: int| 0 <= j < c.len() && c[j] == x;
                assert(c[j].node == a.interfaces@[j].node);
            }
            assert forall|i: int, j: int| 0 <= i < s.interfaces@.len() && 0 <= j < s.interfaces@.len() && i != j
                && s.interfaces@[i].node@ == s.interfaces@[j].node@ implies s.interfaces@[i].name@ != s.interfaces@[j].name@ by {
                let x = s.interfaces@[i];
                let y = s.interfaces@[j];
                let p = choose|p: int| 0 <= p < c.len() && c[p] == x;
                let q = choose|q: int| 0 <= q < c.len() && c[q] == y;
                assert(x.key() != y.key());
                assert(p != q);
                assert(c[p].name == a.interfaces@[p].name && c[q].name == a.interfaces@[q].name);
                assert(c[p].node == a.interfaces@[p].node && c[q].node == a.interfaces@[q].node);
            }
            assert forall|k: Seq<char>| has_key(s.interfaces@, k) <==> has_key(a.interfaces@, k) && !str_in(gone@, k) by {
                if has_key(s.interfaces@, k) {
                    let i = choose|i: int| 0 <= i < s.interfaces@.len() && #[trigger] s.interfaces@[i].key() == k;
                    assert(key_not_in::<Interface>(gone@)(s.interfaces@[i]));
                }
                if has_key(a.interfaces@, k) && !str_in(gone@, k) {
                    let i = choose|i: int| 0 <= i < a.interfaces@.len() && #[trigger] a.interfaces@[i].key() == k;
                    assert(c[i].key() == k);
                    assert(key_not_in::<Interface>(gone@)(c[i]));
                }
            }
            assert forall|i: int| 0 <= i < s.links@.len() implies {
                &&& has_key(s.interfaces@, #[trigger] s.links@[i].interfaces[0]@)
                &&& has_key(s.interfaces@, s.links@[i].interfaces[1]@)
            } by {
                let l = s.links@[i];
                assert(link_kept(gone@)(l));
                let j = choose|j: int| 0 <= j < a.links@.len() && a.links@[j] == l;
                assert(has_key(a.interfaces@, a.links@[j].interfaces[0]@));
            }
            assert forall|i: int| 0 <= i < s.services@.len() implies has_key(s.interfaces@, #[trigger] s.services@[i].interface@) by {
                let v = s.services@[i];
                assert(owner_not_in::<Service>(gone@)(v));
                let j = choose|j: int| 0 <= j < a.services@.len() && a.services@[j] == v;
                assert(has_key(a.interfaces@, a.services@[j].interface@));
            }
        }
    }
}


/// The interface ids that belong to `node`.
pub open spec fn interfaces_of(ifaces: Seq<Interface>, node: Seq<char>, gone: Seq<String>) -> bool {
    forall|x: Seq<char>| str_in(gone, x) <==> exists|i: int| 0 <= i < ifaces.len()
        && (#[trigger] ifaces[i]).id@ == x && ifaces[i].node@ == node
}

/// `b` is `a` without node `node`: its interfaces with their links and
/// services, its instructions and every checkpoint are removed.
pub open spec fn node_deleted(a: Simulation, b: Simulation, node: Seq<char>) -> bool {
    exists|mid: Simulation, gone: Seq<String>| {
        &&& interfaces_of(a.interfaces@, node, gone)
        &&& interfaces_removed(a, mid, gone)
        &&& b.nodes@ == a.nodes@.remove(key_index(a.nodes@, node))
        &&& b.instructions@ == a.instructions@.filter(|i: Instruction| i.node@ != node)
        &&& b.checkpoints@.len() == 0
        &&& b.interfaces == mid.interfaces && b.links == mid.links && b.services == mid.services
        &&& b.available == mid.available && same_but_topology(a, b)
        &&& (a.history_limit == 0 ==> b.history@ == a.history@)
        &&& (a.history_limit > 0 ==> exists|e: HistoryEntry| entry_for(e, a.id@, "node deleted"@)
            && b.history@ == history_after(a.history@, a.history_limit, e))
    }
}

/// `b` is `a` without interface `id`, its links and services, with the event recorded.
pub open spec fn interface_deleted(a: Simulation, b: Simulation, id: Seq<char>) -> bool {
    exists|mid: Simulation, gone: Seq<String>| {
        &&& gone.len() == 1 && gone[0]@ == id
        &&& interfaces_removed(a, mid, gone)
        &&& recorded(mid, b, "interface deleted"@)
    }
}

impl Simulation {
    /// Deletes an interface that takes no part in a breakout.
    pub fn delete_interface(&mut self, interface: &str) -> (r: Result<()>)
        requires
            old(self).wf(),
        ensures
            final(self).wf(),
            r is Err ==> same_sim(*old(self), *final(self)),
            old(self).state != State::Inactive ==> r is Err && r->Err_0 is State,
            old(self).state == State::Inactive && !has_key(old(self).interfaces@, interface@)
                ==> r is Err && r->Err_0 is NotFound,
            r is Ok <==> old(self).state == State::Inactive && has_key(old(self).interfaces@, interface@)
                && keyed(old(self).interfaces@, interface@).split_parent is None
                && keyed(old(self).interfaces@, interface@).split_children@.len() == 0,
            r is Ok ==> interface_deleted(*old(self), *final(self), interface@),
    {
        self.inactive()?;
        let k = match find(&self.interfaces, interface) {
            Some(k) => k,
            None => return Err(Error::NotFound(interface.to_owned())),
        };
        proof {
            let c = key_index(self.interfaces@, interface@);
            assert(self.interfaces@[c].key() == interface@);
            assert(c == k);
        }
        if self.interfaces[k].split_parent.is_some() || self.interfaces[k].split_children.len() > 0 {
            return Err(conflict("revert breakout before deleting interface"));
        }
        let mut gone: Vec<String> = Vec::new();
        gone.push(interface.to_owned());
        let ghost a = *self;
        self.remove_interfaces(&gone);
        let ghost mid = *self;
        self.event("interface deleted");
        proof {
            assert(gone@.len() == 1 && gone@[0]@ == interface@);
            assert(interface_deleted(a, *self, interface@));
            assert forall|i: int| 0 <= i < self.instructions@.len() implies has_key(self.nodes@, #[trigger] self.instructions@[i].node@) by {
                assert(self.instructions@[i] == a.instructions@[i]);
            }
        }
        Ok(())
    }

    /// Deletes a node with everything attached to it; checkpoints of the old
    /// topology can no longer be restored and are dropped.
    pub fn delete_node(&mut self, node: &str) -> (r: Result<()>)
        requires
            old(self).wf(),
        ensures
            final(self).wf(),
            r is Err ==> same_sim(*old(self), *final(self)),
            old(self).state != State::Inactive ==> r is Err && r->Err_0 is State,
            old(self).state == State::Inactive && !has_key(old(self).nodes@, node@) ==> r is Err && r->Err_0 is NotFound,
            r is Ok <==> old(self).state == State::Inactive && has_key(old(self).nodes@, node@),
            r is Ok ==> node_deleted(*old(self), *final(self), node@),
    {
        self.inactive()?;
        let k = match find(&self.nodes, node) {
            Some(k) => k,
            None => return Err(Error::NotFound(node.to_owned())),
        };
        proof {
            let c = key_index(self.nodes@, node@);
            assert(self.nodes@[c].key() == node@);
            assert(c == k);
        }
        let ghost a = *self;
        let mut gone: Vec<String> = Vec::new();
        let mut i: usize = 0;
        while i < self.interfaces.len()
            invariant
                *self == a,
                i <= a.interfaces@.len(),
                forall|x: Seq<char>| str_in(gone@, x) <==> exists|j: int| 0 <= j < i
                    && (#[trigger] a.interfaces@[j]).id@ == x && a.interfaces@[j].node@ == node@,
            decreases a.interfaces@.len() - i,
        {
            if str_eq(self.interfaces[i].node.as_str(), node) {
                let ghost g0 = gone@;
                gone.push(self.interfaces[i].id.clone());
                proof {
                    lemma_str_in_push(g0, gone@.last());
                    assert forall|x: Seq<char>| str_in(gone@, x) <==> exists|j: int| 0 <= j < i + 1
                        && (#[trigger] a.interfaces@[j]).id@ == x && a.interfaces@[j].node@ == node@ by {
                        if exists|j: int| 0 <= j < i + 1 && (#[trigger] a.interfaces@[j]).id@ == x && a.interfaces@[j].node@ == node@ {
                            let j = choose|j: int| 0 <= j < i + 1 && (#[trigger] a.interfaces@[j]).id@ == x && a.interfaces@[j].node@ == node@;
                            if j < i {
                            }
                        }
                    }
                }
            } else {
                proof {
                    assert forall|x: Seq<char>| str_in(gone@, x) <==> exists|j: int| 0 <= j < i + 1
                        && (#[trigger] a.interfaces@[j]).id@ == x && a.interfaces@[j].node@ == node@ by {
                        if exists|j: int| 0 <= j < i + 1 && (#[trigger] a.interfaces@[j]).id@ == x && a.interfaces@[j].node@ == node@ {
                            let j = choose|j: int| 0 <= j < i + 1 && (#[trigger] a.interfaces@[j]).id@ == x && a.interfaces@[j].node@ == node@;
                            assert(j != i);
                        }
                    }
                }
            }
            i += 1;
        }
        self.remove_interfaces(&gone);
        let ghost mid = *self;
        let mut owners: Vec<String> = Vec::new();
        owners.push(node.to_owned());
        let mut instructions = Vec::new();
        std::mem::swap(&mut instructions, &mut self.instructions);
        self.instructions = retain_owners(instructions, &owners);
        proof {
            let q = |x: Instruction| x.node@ != node@;
            assert forall|j: int| 0 <= j < a.instructions@.len() implies
                owner_not_in::<Instruction>(owners@)(#[trigger] a.instructions@[j]) == q(a.instructions@[j]) by {
                if a.instructions@[j].node@ == node@ {
                    assert(owners@[0]@ == node@);
                } else {
                    assert(!str_in(owners@, a.instructions@[j].node@));
                }
            }
            lemma_filter_same(a.instructions@, owner_not_in::<Instruction>(owners@), q);
        }
        self.nodes.remove(k);
        self.checkpoints = Vec::new();
        self.event("node deleted");
        proof {
            let s = *self;
            crate::keyed::lemma_remove_key(a.nodes@, k as int);
            lemma_filter_unique(a.instructions@, owner_not_in::<Instruction>(owners@));
            assert forall|i: int, j: int| 0 <= i < s.nodes@.len() && 0 <= j < s.nodes@.len() && i != j
                implies s.nodes@[i].spec.name@ != s.nodes@[j].spec.name@ by {
                let i2 = if i < k { i } else { i + 1 };
                let j2 = if j < k { j } else { j + 1 };
                assert(s.nodes@[i] == a.nodes@[i2] && s.nodes@[j] == a.nodes@[j2]);
            }
            assert forall|i: int| 0 <= i < s.nodes@.len() implies keys_unique(#[trigger] s.nodes@[i].runtime.files@) by {
                let i2 = if i < k { i } else { i + 1 };
                assert(s.nodes@[i] == a.nodes@[i2]);
            }
            assert forall|i: int| 0 <= i < s.interfaces@.len() implies has_key(s.nodes@, #[trigger] s.interfaces@[i].node@) by {
                let x = s.interfaces@[i];
                assert(has_key(s.interfaces@, x.id@));
                assert(has_key(a.interfaces@, x.id@) && !str_in(gone@, x.id@));
                let c = cleared(a.interfaces@, a.links@, gone@);
                lemma_filter_unique(c, key_not_in::<Interface>(gone@));
                let p = choose|p: int| 0 <= p < c.len() && c[p] == x;
                assert(c[p].node == a.interfaces@[p].node && c[p].id == a.interfaces@[p].id);
                assert(a.interfaces@[p].node@ != node@);
                assert(has_key(a.nodes@, x.node@));
            }
            assert forall|i: int| 0 <= i < s.instructions@.len() implies has_key(s.nodes@, #[trigger] s.instructions@[i].node@) by {
                let x = s.instructions@[i];
                assert(owner_not_in::<Instruction>(owners@)(x));
                assert(owners@[0]@ == node@);
                assert(x.node@ != node@);
                let p = choose|p: int| 0 <= p < a.instructions@.len() && a.instructions@[p] == x;
                assert(has_key(a.nodes@, a.instructions@[p].node@));
            }
            assert(unique_keys(s.checkpoints@));
            assert(node_deleted(a, s, node@));
        }
        Ok(())
    }
}


/// The link and both ends' connections as `create_link` leaves them.
pub open spec fn link_added(a: Simulation, b: Simulation, id: Seq<char>, ends: [String; 2], spec: LinkSpec) -> bool {
    exists|mid: Simulation, l: Link| {
        &&& l.id@ == id && l.interfaces[0]@ == ends[0]@ && l.interfaces[1]@ == ends[1]@ && l.spec == spec
        &&& mid.links@ == a.links@.push(l)
        &&& mid.interfaces@ == a.interfaces@
            .update(key_index(a.interfaces@, ends[0]@), Interface { connection: Some(ends[1]), ..keyed(a.interfaces@, ends[0]@) })
            .update(key_index(a.interfaces@, ends[1]@), Interface { connection: Some(ends[0]), ..keyed(a.interfaces@, ends[1]@) })
        &&& mid.nodes == a.nodes && mid.services == a.services && mid.instructions == a.instructions
        &&& mid.checkpoints == a.checkpoints && mid.available == a.available && mid.history == a.history
        &&& same_but_topology(a, mid)
        &&& recorded(mid, b, "link created"@)
    }
}

/// `b` is `a` with a link `id` between the interfaces `x` and `y`.
pub open spec fn link_created(a: Simulation, b: Simulation, id: Seq<char>, x: Seq<char>, y: Seq<char>, spec: LinkSpec) -> bool {
    exists|e: [String; 2]| e[0]@ == x && e[1]@ == y && #[trigger] link_added(a, b, id, e, spec)
}

/// What fails first when a link is created between `x` and `y`.
pub open spec fn link_fault(a: Simulation, x: Seq<char>, y: Seq<char>, spec: LinkSpec) -> Option<ErrorKind> {
    let i = keyed(a.interfaces@, x);
    let j = keyed(a.interfaces@, y);
    if a.state != State::Inactive {
        Some(ErrorKind::State)
    } else if !(spec.bandwidth_bps > 0 && spec.latency_ns <= 1_000_000_000_000) {
        Some(ErrorKind::Invalid)
    } else if !has_key(a.interfaces@, x) || !has_key(a.interfaces@, y) {
        Some(ErrorKind::NotFound)
    } else if i.id@ == j.id@ || i.node@ == j.node@ || i.interface_type != j.interface_type {
        Some(ErrorKind::Invalid)
    } else if i.connection is Some || j.connection is Some || i.split_children@.len() > 0 || j.split_children@.len() > 0 {
        Some(ErrorKind::Conflict)
    } else if a.links@.len() + 1 > a.limits.links {
        Some(ErrorKind::Conflict)
    } else {
        None
    }
}

/// What `create_link` requires of its two ends, in order of the errors it reports.
pub open spec fn link_ends_ok(a: Simulation, x: Seq<char>, y: Seq<char>) -> bool {
    let i = keyed(a.interfaces@, x);
    let j = keyed(a.interfaces@, y);
    &&& has_key(a.interfaces@, x) && has_key(a.interfaces@, y)
    &&& i.id@ != j.id@ && i.node@ != j.node@ && i.interface_type == j.interface_type
    &&& i.connection is None && j.connection is None
    &&& i.split_children@.len() == 0 && j.split_children@.len() == 0
}

impl Simulation {
    /// Connects two unused interfaces of the same type on different nodes.
    #[verifier::spinoff_prover]
    #[verifier::rlimit(40)]
    pub fn create_link(&mut self, endpoints: [&str; 2], spec: LinkSpec) -> (r: Result<String>)
        requires
            old(self).wf(),
        ensures
            link_fault(*old(self), endpoints[0]@, endpoints[1]@, spec) matches Some(k) ==> r is Err && r->Err_0.kind() == k,
            r is Ok ==> link_fault(*old(self), endpoints[0]@, endpoints[1]@, spec) is None,
            final(self).wf(),
            r is Err ==> same_sim(*old(self), *final(self)),
            old(self).state != State::Inactive ==> r is Err && r->Err_0 is State,
            old(self).state == State::Inactive && !(spec.bandwidth_bps > 0 && spec.latency_ns <= 1_000_000_000_000)
                ==> r is Err && r->Err_0 is Invalid,
            r is Ok ==> old(self).state == State::Inactive && spec.bandwidth_bps > 0
                && spec.latency_ns <= 1_000_000_000_000 && link_ends_ok(*old(self), endpoints[0]@, endpoints[1]@)
                && old(self).links@.len() + 1 <= old(self).limits.links,
            r matches Ok(id) ==> !has_key(old(self).links@, id@)
                && link_created(*old(self), *final(self), id@, endpoints[0]@, endpoints[1]@, spec),
            r is Err && old(self).state == State::Inactive && spec.bandwidth_bps > 0
                && spec.latency_ns <= 1_000_000_000_000 && link_ends_ok(*old(self), endpoints[0]@, endpoints[1]@)
                && old(self).links@.len() + 1 <= old(self).limits.links
                ==> r->Err_0 is Conflict,
    {
        let key = new_id();
        self.create_link_with_id(endpoints, spec, key)
    }

    /// `create_link` with the identifier already drawn.
    pub fn create_link_with_id(&mut self, endpoints: [&str; 2], spec: LinkSpec, key: String) -> (r: Result<String>)
        requires
            old(self).wf(),
        ensures
            link_fault(*old(self), endpoints[0]@, endpoints[1]@, spec) matches Some(k) ==> r is Err && r->Err_0.kind() == k,
            r is Ok ==> link_fault(*old(self), endpoints[0]@, endpoints[1]@, spec) is None,
            final(self).wf(),
            r is Err ==> same_sim(*old(self), *final(self)),
            old(self).state != State::Inactive ==> r is Err && r->Err_0 is State,
            old(self).state == State::Inactive && !(spec.bandwidth_bps > 0 && spec.latency_ns <= 1_000_000_000_000)
                ==> r is Err && r->Err_0 is Invalid,
            r is Ok ==> old(self).state == State::Inactive && spec.bandwidth_bps > 0
                && spec.latency_ns <= 1_000_000_000_000 && link_ends_ok(*old(self), endpoints[0]@, endpoints[1]@)
                && old(self).links@.len() + 1 <= old(self).limits.links,
            r matches Ok(id) ==> !has_key(old(self).links@, id@)
                && link_created(*old(self), *final(self), id@, endpoints[0]@, endpoints[1]@, spec),
            r is Err && old(self).state == State::Inactive && spec.bandwidth_bps > 0
                && spec.latency_ns <= 1_000_000_000_000 && link_ends_ok(*old(self), endpoints[0]@, endpoints[1]@)
                && old(self).links@.len() + 1 <= old(self).limits.links
                ==> r->Err_0 is Conflict,
            old(self).state == State::Inactive && spec.bandwidth_bps > 0
                && spec.latency_ns <= 1_000_000_000_000 && link_ends_ok(*old(self), endpoints[0]@, endpoints[1]@)
                && old(self).links@.len() + 1 <= old(self).limits.links
                && !has_key(old(self).links@, key@) ==> r is Ok,
            r matches Ok(k) ==> k@ == key@,
    {
        self.inactive()?;
        spec.validate()?;
        let ia = match find(&self.interfaces, endpoints[0]) {
            Some(k) => k,
            None => return Err(Error::NotFound(endpoints[0].to_owned())),
        };
        let ib = match find(&self.interfaces, endpoints[1]) {
            Some(k) => k,
            None => return Err(Error::NotFound(endpoints[1].to_owned())),
        };
        proof {
            let c = key_index(self.interfaces@, endpoints[0]@);
            assert(self.interfaces@[c].key() == endpoints[0]@);
            assert(c == ia);
            let d = key_index(self.interfaces@, endpoints[1]@);
            assert(self.interfaces@[d].key() == endpoints[1]@);
            assert(d == ib);
        }
        if str_eq(self.interfaces[ia].id.as_str(), self.interfaces[ib].id.as_str())
            || str_eq(self.interfaces[ia].node.as_str(), self.interfaces[ib].node.as_str()) {
            return Err(invalid("link requires two different nodes"));
        }
        if self.interfaces[ia].interface_type != self.interfaces[ib].interface_type {
            return Err(invalid("incompatible interface types"));
        }
        if self.interfaces[ia].connection.is_some() || self.interfaces[ib].connection.is_some()
            || self.interfaces[ia].split_children.len() > 0 || self.interfaces[ib].split_children.len() > 0 {
            return Err(conflict("interface already connected or broken out"));
        }
        crate::limits::capacity("links capacity exceeded", self.links.len(), 1, self.limits.links)?;

        if find(&self.links, key.as_str()).is_some() {
            return Err(conflict("link identifier collision"));
        }
        let ghost a = *self;
        let e0 = endpoints[0].to_owned();
        let e1 = endpoints[1].to_owned();
        let link = Link { id: key.clone(), interfaces: [e0.clone(), e1.clone()], spec };
        let ghost lg = link;
        self.links.push(link);
        self.interfaces[ia].connection = Some(e1.clone());
        self.interfaces[ib].connection = Some(e0.clone());
        let ghost mid = *self;
        proof {
            crate::keyed::lemma_push_key(a.links@, lg);
            let u1 = a.interfaces@.update(ia as int, Interface { connection: Some(e1), ..a.interfaces@[ia as int] });
            let u2 = u1.update(ib as int, Interface { connection: Some(e0), ..a.interfaces@[ib as int] });
            assert(self.interfaces@ =~= u2);
            crate::keyed::lemma_same_keys(a.interfaces@, self.interfaces@);
            assert forall|x: int| 0 <= x < self.interfaces@.len() implies has_key(self.nodes@, #[trigger] self.interfaces@[x].node@) by {
                assert(self.interfaces@[x].node == a.interfaces@[x].node);
            }
            assert forall|x: int, y: int| 0 <= x < self.interfaces@.len() && 0 <= y < self.interfaces@.len() && x != y
                && self.interfaces@[x].node@ == self.interfaces@[y].node@
                implies self.interfaces@[x].name@ != self.interfaces@[y].name@ by {
                assert(self.interfaces@[x].node == a.interfaces@[x].node && self.interfaces@[x].name == a.interfaces@[x].name);
                assert(self.interfaces@[y].node == a.interfaces@[y].node && self.interfaces@[y].name == a.interfaces@[y].name);
            }
            assert forall|x: int| 0 <= x < self.links@.len() implies {
                &&& has_key(self.interfaces@, #[trigger] self.links@[x].interfaces[0]@)
                &&& has_key(self.interfaces@, self.links@[x].interfaces[1]@)
            } by {
                if x < a.links@.len() {
                    assert(self.links@[x] == a.links@[x]);
                } else {
                    assert(self.links@[x] == lg);
                    assert(self.interfaces@[ia as int].key() == endpoints[0]@);
                    assert(self.interfaces@[ib as int].key() == endpoints[1]@);
                }
            }
            assert forall|x: int| 0 <= x < self.services@.len() implies has_key(self.interfaces@, #[trigger] self.services@[x].interface@) by {
                assert(self.services@[x] == a.services@[x]);
            }
        }
        self.event("link created");
        proof {
            let ee: [String; 2] = [e0, e1];
            assert(ee[0]@ == endpoints[0]@ && ee[1]@ == endpoints[1]@);
            assert(key_index(a.interfaces@, ee[0]@) == ia && key_index(a.interfaces@, ee[1]@) == ib);
            assert(keyed(a.interfaces@, ee[0]@) == a.interfaces@[ia as int]);
            assert(keyed(a.interfaces@, ee[1]@) == a.interfaces@[ib as int]);
            assert(lg.id@ == key@ && lg.interfaces[0]@ == ee[0]@ && lg.interfaces[1]@ == ee[1]@ && lg.spec == spec);
            assert(mid.links@ == a.links@.push(lg));
            assert(mid.interfaces@ == a.interfaces@
                .update(key_index(a.interfaces@, ee[0]@), Interface { connection: Some(ee[1]), ..keyed(a.interfaces@, ee[0]@) })
                .update(key_index(a.interfaces@, ee[1]@), Interface { connection: Some(ee[0]), ..keyed(a.interfaces@, ee[1]@) }));
            assert(same_but_topology(a, mid));
            assert(recorded(mid, *self, "link created"@));
            assert(link_added(a, *self, key@, ee, spec));
            assert(a == *old(self));
            assert(!has_key(old(self).links@, key@));
            assert(link_created(*old(self), *self, key@, endpoints[0]@, endpoints[1]@, spec));
        }
        Ok(key)
    }

    /// Changes a link's conditions; allowed in any state.
    #[verifier::spinoff_prover]
    #[verifier::rlimit(40)]
    pub fn set_link(&mut self, link: &str, spec: LinkSpec) -> (r: Result<()>)
        requires
            old(self).wf(),
        ensures
            final(self).wf(),
            r is Err ==> same_sim(*old(self), *final(self)),
            !(spec.bandwidth_bps > 0 && spec.latency_ns <= 1_000_000_000_000) ==> r is Err && r->Err_0 is Invalid,
            spec.bandwidth_bps > 0 && spec.latency_ns <= 1_000_000_000_000 && !has_key(old(self).links@, link@)
                ==> r is Err && r->Err_0 is NotFound,
            r is Ok <==> spec.bandwidth_bps > 0 && spec.latency_ns <= 1_000_000_000_000 && has_key(old(self).links@, link@),
            r is Ok ==> link_respecified(*old(self), *final(self), link@, spec),
    {
        spec.validate()?;
        let k = match find(&self.links, link) {
            Some(k) => k,
            None => return Err(Error::NotFound(link.to_owned())),
        };
        proof {
            let c = key_index(self.links@, link@);
            assert(self.links@[c].key() == link@);
            assert(c == k);
        }
        let ghost a = *self;
        self.links[k].spec = spec;
        let ghost mid = *self;
        proof {
            assert(self.links@ =~= a.links@.update(k as int, Link { spec: spec, ..a.links@[k as int] }));
            crate::keyed::lemma_same_keys(a.links@, self.links@);
            assert forall|x: int| 0 <= x < self.links@.len() implies {
                &&& has_key(self.interfaces@, #[trigger] self.links@[x].interfaces[0]@)
                &&& has_key(self.interfaces@, self.links@[x].interfaces[1]@)
            } by {
                assert(self.links@[x].interfaces == a.links@[x].interfaces);
                assert(has_key(a.interfaces@, a.links@[x].interfaces[0]@));
                assert(has_key(a.interfaces@, a.links@[x].interfaces[1]@));
            }
        }
        self.event("link conditions updated");
        proof {
            assert(key_index(a.links@, link@) == k);
            assert(keyed(a.links@, link@) == a.links@[k as int]);
            assert(mid.links@ == a.links@.update(key_index(a.links@, link@), Link { spec: spec, ..keyed(a.links@, link@) }));
            assert(same_but_topology(a, mid));
            assert(recorded(mid, *self, "link conditions updated"@));
            assert(link_respecified(a, *self, link@, spec));
        }
        Ok(())
    }
}

/// `b` is `a` with link `link` given new conditions and the event recorded.
pub open spec fn link_respecified(a: Simulation, b: Simulation, link: Seq<char>, spec: LinkSpec) -> bool {
    exists|mid: Simulation| {
        &&& mid.links@ == a.links@.update(key_index(a.links@, link), Link { spec: spec, ..keyed(a.links@, link) })
        &&& mid.nodes == a.nodes && mid.interfaces == a.interfaces && mid.services == a.services
        &&& mid.instructions == a.instructions && mid.checkpoints == a.checkpoints
        &&& mid.available == a.available && mid.history == a.history && same_but_topology(a, mid)
        &&& recorded(mid, b, "link conditions updated"@)
    }
}

} // verus!
