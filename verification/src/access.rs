#![verifier::loop_isolation(false)]
//! Defaults, read access, history retention, retention limits and the registry's
//! scheduling of sleeps and expiries.
use vstd::prelude::*;
use crate::keyed::{Keyed, has_key, unique_keys, find, str_eq, key_index, keyed, lemma_index_of_key, key_is_not};
use crate::limits::{Limits, Usage};
use crate::model::{Error, ErrorKind, Result, Instant, State, Role, InterfaceType, Resources, LinkSpec, NodeSpec, Node,
    NodeRuntime, Interface, Link, Service, Instruction, Checkpoint, HistoryEntry, HistoryFilters, Simulation, instant_le,
    outcome, keys_unique, entry_for, history_after};
use crate::api::Simulator;
use crate::lifecycle::shut_down;

verus! {

/// The image a node gets when none is named.
pub fn default_image() -> (r: String)
    ensures
        r@ == "generic/ubuntu2204"@,
{
    "generic/ubuntu2204".to_owned()
}

/// Links are up unless declared otherwise.
pub fn yes() -> (r: bool)
    ensures
        r,
{
    true
}

impl NodeSpec {
    /// A host with the default image and resources and no labels.
    pub fn host(name: &str) -> (r: NodeSpec)
        ensures
            r.name@ == name@ && r.image@ == "generic/ubuntu2204"@ && r.role == Role::Host
                && r.resources == (Resources { cpu: 2, memory: 1024, storage: 10 }) && r.labels@.len() == 0,
    {
        NodeSpec { name: name.to_owned(), image: default_image(), role: Role::Host, resources: Resources::standard(), labels: Vec::new() }
    }
}

impl Default for Resources {
    fn default() -> (r: Self)
        ensures
            r == (Resources { cpu: 2, memory: 1024, storage: 10 }),
    {
        Resources::standard()
    }
}

impl Default for LinkSpec {
    fn default() -> (r: Self)
        ensures
            r == (LinkSpec { bandwidth_bps: 100_000_000_000, latency_ns: 1000, up: true }),
    {
        LinkSpec::standard()
    }
}

impl Default for Role {
    fn default() -> (r: Self)
        ensures
            r == Role::Host,
    {
        Role::Host
    }
}

impl Default for InterfaceType {
    fn default() -> (r: Self)
        ensures
            r == InterfaceType::Data,
    {
        InterfaceType::Data
    }
}

impl Simulation {
    pub fn nodes(&self) -> (r: &[Node])
        ensures
            r@ == self.nodes@,
    {
        self.nodes.as_slice()
    }

    pub fn interfaces(&self) -> (r: &[Interface])
        ensures
            r@ == self.interfaces@,
    {
        self.interfaces.as_slice()
    }

    pub fn links(&self) -> (r: &[Link])
        ensures
            r@ == self.links@,
    {
        self.links.as_slice()
    }

    pub fn services(&self) -> (r: &[Service])
        ensures
            r@ == self.services@,
    {
        self.services.as_slice()
    }

    pub fn instructions(&self) -> (r: &[Instruction])
        ensures
            r@ == self.instructions@,
    {
        self.instructions.as_slice()
    }

    pub fn checkpoints(&self) -> (r: &[Checkpoint])
        ensures
            r@ == self.checkpoints@,
    {
        self.checkpoints.as_slice()
    }

    pub fn history(&self) -> (r: &[HistoryEntry])
        ensures
            r@ == self.history@,
    {
        self.history.as_slice()
    }

    /// Retains the newest `limit` events; zero disables retention.
    pub fn set_history_limit(&mut self, limit: usize)
        requires
            old(self).wf(),
        ensures
            final(self).wf(),
            final(self).history_limit == limit,
            old(self).history@.len() <= limit ==> final(self).history@ == old(self).history@,
            old(self).history@.len() > limit ==> final(self).history@
                == old(self).history@.subrange(old(self).history@.len() - limit, old(self).history@.len() as int),
            *final(self) == (Simulation { history: final(self).history, history_limit: limit, ..*old(self) }),
    {
        self.history_limit = limit;
        if self.history.len() > limit {
            let excess = self.history.len() - limit;
            let kept = self.history.split_off(excess);
            self.history = kept;
        }
    }

    /// Every actor, severity and label that occurs in the history, in order.
    pub fn history_filters(&self) -> (r: HistoryFilters)
        ensures
            r.actors@.len() == self.history@.len() && r.severities@.len() == self.history@.len(),
            forall|i: int| 0 <= i < self.history@.len() ==> (#[trigger] r.actors@[i])@ == self.history@[i].actor@
                && r.severities@[i]@ == self.history@[i].severity@,
            r.labels@ == flat_labels(self.history@),
    {
        let mut actors: Vec<String> = Vec::new();
        let mut severities: Vec<String> = Vec::new();
        let mut labels: Vec<String> = Vec::new();
        let mut i: usize = 0;
        proof { assert(self.history@.subrange(0, 0).len() == 0); }
        while i < self.history.len()
            invariant
                i <= self.history@.len(),
                actors@.len() == i && severities@.len() == i,
                forall|j: int| 0 <= j < i ==> (#[trigger] actors@[j])@ == self.history@[j].actor@
                    && severities@[j]@ == self.history@[j].severity@,
                labels@ == flat_labels(self.history@.subrange(0, i as int)),
            decreases self.history@.len() - i,
        {
            let e = &self.history[i];
            actors.push(e.actor.clone());
            severities.push(e.severity.clone());
            let ghost before = labels@;
            let mut k: usize = 0;
            while k < e.labels.len()
                invariant
                    k <= e.labels@.len(),
                    labels@ == before + e.labels@.subrange(0, k as int),
                decreases e.labels@.len() - k,
            {
                labels.push(e.labels[k].clone());
                proof { assert(labels@ =~= before + e.labels@.subrange(0, k + 1)); }
                k += 1;
            }
            proof {
                assert(e.labels@.subrange(0, k as int) =~= e.labels@);
                assert(self.history@.subrange(0, i + 1).drop_last() =~= self.history@.subrange(0, i as int));
            }
            i += 1;
        }
        proof { assert(self.history@.subrange(0, i as int) =~= self.history@); }
        HistoryFilters { actors, severities, labels }
    }

    /// The node named `name`.
    pub fn node_named(&self, name: &str) -> (r: Result<&Node>)
        ensures
            r matches Ok(n) ==> self.nodes@.contains(*n) && n.spec.name@ == name@,
            r is Err <==> !(exists|i: int| 0 <= i < self.nodes@.len() && (#[trigger] self.nodes@[i]).spec.name@ == name@),
            r is Err ==> r->Err_0 is NotFound,
    {
        let mut i: usize = 0;
        while i < self.nodes.len()
            invariant
                i <= self.nodes@.len(),
                forall|j: int| 0 <= j < i ==> (#[trigger] self.nodes@[j]).spec.name@ != name@,
            decreases self.nodes@.len() - i,
        {
            if str_eq(self.nodes[i].spec.name.as_str(), name) {
                return Ok(&self.nodes[i]);
            }
            i += 1;
        }
        Err(Error::NotFound(name.to_owned()))
    }

    /// The interface of `node` named `name`.
    pub fn interface_named(&self, node: &str, name: &str) -> (r: Result<&Interface>)
        ensures
            !has_key(self.nodes@, node@) ==> r is Err && r->Err_0 is NotFound,
            r matches Ok(i) ==> self.interfaces@.contains(*i) && i.node@ == node@ && i.name@ == name@,
            has_key(self.nodes@, node@) ==> (r is Err <==> !(exists|i: int| 0 <= i < self.interfaces@.len()
                && (#[trigger] self.interfaces@[i]).node@ == node@ && self.interfaces@[i].name@ == name@)),
            r is Err ==> r->Err_0 is NotFound,
    {
        self.node(node)?;
        let mut i: usize = 0;
        while i < self.interfaces.len()
            invariant
                i <= self.interfaces@.len(),
                forall|j: int| 0 <= j < i ==> !((#[trigger] self.interfaces@[j]).node@ == node@ && self.interfaces@[j].name@ == name@),
            decreases self.interfaces@.len() - i,
        {
            if str_eq(self.interfaces[i].node.as_str(), node) && str_eq(self.interfaces[i].name.as_str(), name) {
                return Ok(&self.interfaces[i]);
            }
            i += 1;
        }
        Err(Error::NotFound(name.to_owned()))
    }

    /// The guest runtime of a node.
    pub fn runtime(&self, node: &str) -> (r: Result<&NodeRuntime>)
        ensures
            r is Err <==> !has_key(self.nodes@, node@),
            r is Err ==> r->Err_0 is NotFound,
            r matches Ok(t) ==> exists|i: int| 0 <= i < self.nodes@.len() && (#[trigger] self.nodes@[i]).id@ == node@
                && self.nodes@[i].runtime == *t,
    {
        match find(&self.nodes, node) {
            Some(i) => Ok(&self.nodes[i].runtime),
            None => Err(Error::NotFound(node.to_owned())),
        }
    }

    pub fn limits(&self) -> (r: &Limits)
        ensures
            *r == self.limits,
    {
        &self.limits
    }

    /// What the simulation retains, by count.
    pub fn usage(&self) -> (r: Usage)
        ensures
            r.interfaces == self.interfaces@.len() && r.links == self.links@.len() && r.services == self.services@.len()
                && r.instructions == self.instructions@.len() && r.checkpoints == self.checkpoints@.len(),
    {
        Usage {
            interfaces: self.interfaces.len(),
            links: self.links.len(),
            services: self.services.len(),
            instructions: self.instructions.len(),
            checkpoints: self.checkpoints.len(),
        }
    }

    /// Sets new retention limits; refused when what is retained already exceeds them.
    pub fn set_limits(&mut self, limits: Limits) -> (r: Result<()>)
        requires
            old(self).wf(),
        ensures
            final(self).wf(),
            r is Ok <==> within(*old(self), limits),
            r is Err ==> *final(self) == *old(self) && r->Err_0 is Conflict,
            r is Ok ==> *final(self) == (Simulation { limits: limits, ..*old(self) }),
    {
        self.validate_limits(&limits)?;
        self.limits = limits;
        Ok(())
    }

    /// `Ok` exactly when every count is within `limits`.
    pub fn validate_limits(&self, limits: &Limits) -> (r: Result<()>)
        ensures
            r is Ok <==> within(*self, *limits),
            r is Err ==> r->Err_0 is Conflict,
    {
        let u = self.usage();
        crate::limits::capacity("interfaces", u.interfaces, 0, limits.interfaces)?;
        crate::limits::capacity("links", u.links, 0, limits.links)?;
        crate::limits::capacity("services", u.services, 0, limits.services)?;
        crate::limits::capacity("instructions", u.instructions, 0, limits.instructions)?;
        crate::limits::capacity("checkpoints", u.checkpoints, 0, limits.checkpoints)?;
        Ok(())
    }
}

/// Every label of every event, in order.
pub open spec fn flat_labels(h: Seq<HistoryEntry>) -> Seq<String>
    decreases h.len(),
{
    if h.len() == 0 { Seq::empty() } else { flat_labels(h.drop_last()) + h.last().labels@ }
}

/// The counts of `s` fit `limits`.
pub open spec fn within(s: Simulation, limits: Limits) -> bool {
    &&& s.interfaces@.len() <= limits.interfaces && s.links@.len() <= limits.links
    &&& s.services@.len() <= limits.services && s.instructions@.len() <= limits.instructions
    &&& s.checkpoints@.len() <= limits.checkpoints
}

/// Has the simulation's expiry passed at `now`?
pub open spec fn expired(s: Simulation, now: Instant) -> bool {
    (s.expires_at matches Some(t) && instant_le(t, now))
}

/// Is an active simulation due to sleep at `now`?
pub open spec fn asleep(s: Simulation, now: Instant) -> bool {
    s.state == State::Active && (s.sleep_at matches Some(t) && instant_le(t, now))
}

impl Simulator {
    /// Read-write access to one simulation.
    pub fn get_mut(&mut self, id: &str) -> (r: Result<&mut Simulation>)
        requires
            old(self).wf(),
        ensures
            r is Err <==> !has_key(old(self).simulations@, id@),
            r is Err ==> r->Err_0 is NotFound && *final(self) == *old(self),
            r is Ok ==> *r->Ok_0 == keyed(old(self).simulations@, id@)
                && final(self).max_simulations == old(self).max_simulations
                && final(self).simulations@ == old(self).simulations@.update(key_index(old(self).simulations@, id@), *final(r->Ok_0)),
    {
        match find(&self.simulations, id) {
            Some(i) => {
                proof { lemma_index_of_key(self.simulations@, i as int); }
                Ok(&mut self.simulations[i])
            },
            None => Err(Error::NotFound(id.to_owned())),
        }
    }
}

pub open spec fn not_expired(now: Instant) -> spec_fn(Simulation) -> bool {
    |s: Simulation| !expired(s, now)
}

pub open spec fn is_expired(now: Instant) -> spec_fn(Simulation) -> bool {
    |s: Simulation| expired(s, now)
}

/// `b` is `a` at `now`: shut down when due to sleep, else unchanged.
pub open spec fn tick_step(a: Simulation, b: Simulation, now: Instant) -> bool {
    if asleep(a, now) { shut_down(a, b, None) } else { b == a }
}

impl Simulator {
    /// Applies wall-clock deadlines at `now`: expired simulations are removed and
    /// their identifiers returned in registry order; active simulations due to
    /// sleep are shut down without a checkpoint.
    pub fn tick(&mut self, now: Instant) -> (r: Vec<String>)
        requires
            old(self).wf(),
        ensures
            final(self).wf(),
            final(self).max_simulations == old(self).max_simulations,
            final(self).simulations@.len() == old(self).simulations@.filter(not_expired(now)).len(),
            forall|i: int| 0 <= i < final(self).simulations@.len() ==> tick_step(
                old(self).simulations@.filter(not_expired(now))[i], #[trigger] final(self).simulations@[i], now),
            r@.len() == old(self).simulations@.filter(is_expired(now)).len(),
            forall|i: int| 0 <= i < r@.len() ==> (#[trigger] r@[i])@ == old(self).simulations@.filter(is_expired(now))[i].id@,
    {
        let ghost a = self.simulations@;
        let n = self.simulations.len();
        let mut all: Vec<Simulation> = Vec::new();
        std::mem::swap(&mut all, &mut self.simulations);
        let mut rest = crate::keyed::reversed(all);
        let mut kept: Vec<Simulation> = Vec::new();
        let mut gone: Vec<String> = Vec::new();
        let mut i: usize = 0;
        proof {
            assert(a.take(0).filter(not_expired(now)) =~= Seq::<Simulation>::empty()) by { reveal(Seq::filter); }
            assert(a.take(0).filter(is_expired(now)) =~= Seq::<Simulation>::empty()) by { reveal(Seq::filter); }
        }
        while rest.len() > 0
            invariant
                n == a.len(),
                rest@.len() + i == a.len(),
                forall|j: int| 0 <= j < rest@.len() ==> #[trigger] rest@[j] == a[a.len() - 1 - j],
                forall|j: int| 0 <= j < a.len() ==> (#[trigger] a[j]).wf(),
                kept@.len() == a.take(i as int).filter(not_expired(now)).len(),
                forall|j: int| 0 <= j < kept@.len() ==> tick_step(a.take(i as int).filter(not_expired(now))[j],
                    #[trigger] kept@[j], now) && kept@[j].wf(),
                gone@.len() == a.take(i as int).filter(is_expired(now)).len(),
                forall|j: int| 0 <= j < gone@.len() ==> (#[trigger] gone@[j])@ == a.take(i as int).filter(is_expired(now))[j].id@,
            decreases rest@.len(),
        {
            let mut s = rest.pop().unwrap();
            proof {
                assert(s == a[i as int]);
                assert(a.take(i + 1) =~= a.take(i as int).push(s));
                crate::keyed::lemma_filter_push(a.take(i as int), not_expired(now), s);
                crate::keyed::lemma_filter_push(a.take(i as int), is_expired(now), s);
            }
            let is_gone = match s.expires_at {
                Some(t) => t.not_after(&now),
                None => false,
            };
            if is_gone {
                gone.push(s.id.clone());
            } else {
                let due = s.state == State::Active && match s.sleep_at {
                    Some(t) => t.not_after(&now),
                    None => false,
                };
                let ghost s0 = s;
                if due {
                    let c = s.shutdown(false);
                    proof { assert(c is Ok); }
                }
                kept.push(s);
                proof {
                    assert(tick_step(s0, kept@.last(), now));
                }
            }
            i += 1;
        }
        proof {
            assert(a.take(i as int) =~= a);
            crate::keyed::lemma_filter_unique(a, not_expired(now));
            let f = a.filter(not_expired(now));
            assert forall|x: int| 0 <= x < kept@.len() implies #[trigger] kept@[x].key() == f[x].key() by {
                if asleep(f[x], now) {
                    let (m1, m2) = choose|m1: Simulation, m2: Simulation| #[trigger] crate::lifecycle::shutdown_steps(f[x], m1, m2, kept@[x], None);
                }
            }
            crate::keyed::lemma_same_keys(f, kept@);
        }
        self.simulations = kept;
        gone
    }
}

} // verus!
