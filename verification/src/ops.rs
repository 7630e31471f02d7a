#![verifier::loop_isolation(false)]
//! Further simulation edits: link removal, services, the ZTP script, naming,
//! schedules and resource totals. Every refused call leaves the simulation as it was.
use vstd::prelude::*;
use crate::keyed::{Keyed, Owned, has_key, unique_keys, find, str_eq, key_index, keyed, key_not_in, retain_keys,
    lemma_filter_unique, lemma_filter_same, lemma_index_of_key};
use crate::model::{same_sim, Error, ErrorKind, Result, Instant, State, InterfaceType, ServiceType, Resources, Interface,
    Link, Service, Reservation, Simulation, invalid, conflict, recorded, instant_le, outcome};
use crate::api::{same_but_topology, blank, is_blank};
use crate::outside::new_id;

verus! {

/// `b` is `a` without link `id`: both ends lose their connection and the link's
/// reservations are dropped; the event is recorded.
pub open spec fn link_deleted(a: Simulation, b: Simulation, id: Seq<char>) -> bool {
    exists|mid: Simulation| #[trigger] link_removed(a, mid, id) && recorded(mid, b, "link deleted"@)
}

pub open spec fn link_removed(a: Simulation, mid: Simulation, id: Seq<char>) -> bool {
    let l = keyed(a.links@, id);
    &&& mid.links@ == a.links@.remove(key_index(a.links@, id))
    &&& mid.interfaces@ == Seq::new(a.interfaces@.len(), |i: int|
        if a.interfaces@[i].id@ == l.interfaces[0]@ || a.interfaces@[i].id@ == l.interfaces[1]@ {
            Interface { connection: None, ..a.interfaces@[i] }
        } else {
            a.interfaces@[i]
        })
    &&& mid.available@ == a.available@.filter(|r: Reservation| r.link@ != id)
    &&& same_but_topology(a, mid) && mid.modified == a.modified
    &&& mid.nodes == a.nodes && mid.services == a.services && mid.instructions == a.instructions
    &&& mid.checkpoints == a.checkpoints && mid.history == a.history
}

impl Simulation {
    /// Deletes a link of an inactive simulation.
    pub fn delete_link(&mut self, link: &str) -> (r: Result<()>)
        requires
            old(self).wf(),
        ensures
            final(self).wf(),
            r is Err ==> same_sim(*old(self), *final(self)),
            old(self).state != State::Inactive ==> r is Err && r->Err_0 is State,
            old(self).state == State::Inactive && !has_key(old(self).links@, link@) ==> r is Err && r->Err_0 is NotFound,
            r is Ok <==> old(self).state == State::Inactive && has_key(old(self).links@, link@),
            r is Ok ==> link_deleted(*old(self), *final(self), link@),
    {
        self.inactive()?;
        let k = match find(&self.links, link) {
            Some(k) => k,
            None => return Err(Error::NotFound(link.to_owned())),
        };
        proof { lemma_index_of_key(self.links@, k as int); }
        let ghost a = *self;
        let removed = self.links.remove(k);
        let mut i: usize = 0;
        while i < self.interfaces.len()
            invariant
                self.interfaces@.len() == a.interfaces@.len(),
                i <= a.interfaces@.len(),
                removed == a.links@[k as int],
                forall|j: int| 0 <= j < i ==> #[trigger] self.interfaces@[j] == (
                    if a.interfaces@[j].id@ == removed.interfaces[0]@ || a.interfaces@[j].id@ == removed.interfaces[1]@ {
                        Interface { connection: None, ..a.interfaces@[j] }
                    } else {
                        a.interfaces@[j]
                    }),
                forall|j: int| i <= j < a.interfaces@.len() ==> #[trigger] self.interfaces@[j] == a.interfaces@[j],
                self.links@ == a.links@.remove(k as int),
                self.nodes == a.nodes && self.services == a.services && self.available == a.available,
                same_but_topology(a, *self) && self.modified == a.modified,
                self.instructions == a.instructions && self.checkpoints == a.checkpoints && self.history == a.history,
            decreases a.interfaces@.len() - i,
        {
            if str_eq(self.interfaces[i].id.as_str(), removed.interfaces[0].as_str())
                || str_eq(self.interfaces[i].id.as_str(), removed.interfaces[1].as_str()) {
                self.interfaces[i].connection = None;
            }
            i += 1;
        }
        let mut dropped: Vec<String> = Vec::new();
        dropped.push(link.to_owned());
        let mut available = Vec::new();
        std::mem::swap(&mut available, &mut self.available);
        self.available = retain_keys(available, &dropped);
        proof {
            let q = |r: Reservation| r.link@ != link@;
            assert forall|j: int| 0 <= j < a.available@.len() implies
                key_not_in::<Reservation>(dropped@)(#[trigger] a.available@[j]) == q(a.available@[j]) by {
                if a.available@[j].link@ == link@ {
                    assert(dropped@[0]@ == link@);
                }
            }
            lemma_filter_same(a.available@, key_not_in::<Reservation>(dropped@), q);
            assert(self.interfaces@ =~= Seq::new(a.interfaces@.len(), |j: int|
                if a.interfaces@[j].id@ == removed.interfaces[0]@ || a.interfaces@[j].id@ == removed.interfaces[1]@ {
                    Interface { connection: None, ..a.interfaces@[j] }
                } else {
                    a.interfaces@[j]
                }));
            assert(keyed(a.links@, link@) == removed);
            assert(link_removed(a, *self, link@));
        }
        let ghost mid = *self;
        proof {
            let s = *self;
            crate::keyed::lemma_remove_key(a.links@, k as int);
            assert forall|x: int| 0 <= x < a.interfaces@.len() implies #[trigger] s.interfaces@[x].key() == a.interfaces@[x].key() by {}
            crate::keyed::lemma_same_keys(a.interfaces@, s.interfaces@);
            assert forall|x: int| 0 <= x < s.interfaces@.len() implies has_key(s.nodes@, #[trigger] s.interfaces@[x].node@) by {
                assert(s.interfaces@[x].node == a.interfaces@[x].node);
            }
            assert forall|x: int, y: int| 0 <= x < s.interfaces@.len() && 0 <= y < s.interfaces@.len() && x != y
                && s.interfaces@[x].node@ == s.interfaces@[y].node@
                implies s.interfaces@[x].name@ != s.interfaces@[y].name@ by {
                assert(s.interfaces@[x].node == a.interfaces@[x].node && s.interfaces@[x].name == a.interfaces@[x].name);
                assert(s.interfaces@[y].node == a.interfaces@[y].node && s.interfaces@[y].name == a.interfaces@[y].name);
            }
            assert forall|x: int| 0 <= x < s.links@.len() implies {
                &&& has_key(s.interfaces@, #[trigger] s.links@[x].interfaces[0]@)
                &&& has_key(s.interfaces@, s.links@[x].interfaces[1]@)
            } by {
                let y = if x < k { x } else { x + 1 };
                assert(s.links@[x] == a.links@[y]);
                assert(has_key(a.interfaces@, a.links@[y].interfaces[0]@));
                assert(has_key(a.interfaces@, a.links@[y].interfaces[1]@));
            }
            assert forall|x: int| 0 <= x < s.services@.len() implies has_key(s.interfaces@, #[trigger] s.services@[x].interface@) by {
                assert(s.services@[x] == a.services@[x]);
                assert(has_key(a.interfaces@, a.services@[x].interface@));
            }
        }
        self.event("link deleted");
        proof {
            assert(link_removed(a, mid, link@));
            assert(recorded(mid, *self, "link deleted"@));
        }
        Ok(())
    }
}

/// Does a service already use `port` on `interface`?
pub open spec fn port_taken(services: Seq<Service>, interface: Seq<char>, port: u16) -> bool {
    exists|i: int| 0 <= i < services.len() && (#[trigger] services[i]).interface@ == interface && services[i].node_port == port
}

/// What fails first when a service is registered.
pub open spec fn service_fault(a: Simulation, interface: Seq<char>, port: u16) -> Option<ErrorKind> {
    if a.state != State::Inactive {
        Some(ErrorKind::State)
    } else if !has_key(a.interfaces@, interface) {
        Some(ErrorKind::NotFound)
    } else if keyed(a.interfaces@, interface).split_children@.len() > 0 || port == 0 {
        Some(ErrorKind::Invalid)
    } else if port_taken(a.services@, interface, port) {
        Some(ErrorKind::Conflict)
    } else if a.services@.len() + 1 > a.limits.services {
        Some(ErrorKind::Conflict)
    } else {
        None
    }
}

/// `b` is `a` with service `id` appended and the event recorded.
pub open spec fn service_added(a: Simulation, b: Simulation, id: Seq<char>, interface: Seq<char>, name: Seq<char>,
    port: u16, service_type: ServiceType) -> bool {
    exists|mid: Simulation| #[trigger] service_pushed(a, mid, id, interface, name, port, service_type)
        && recorded(mid, b, "service registered"@)
}

pub open spec fn service_pushed(a: Simulation, mid: Simulation, id: Seq<char>, interface: Seq<char>, name: Seq<char>,
    port: u16, service_type: ServiceType) -> bool {
    let s = mid.services@.last();
    &&& mid.services@.len() == a.services@.len() + 1 && mid.services@.drop_last() == a.services@
    &&& s.id@ == id && s.interface@ == interface && s.name@ == name && s.node_port == port
    &&& s.service_type == service_type && s.worker_port is None && s.worker_fqdn is None
    &&& mid == Simulation { services: mid.services, ..a }
}

impl Simulation {
    /// Registers a service of an inactive simulation on a usable interface, on a
    /// nonzero port that is free there.
    /// A fresh random identifier that happens to collide is refused as a conflict.
    pub fn create_service(&mut self, interface: &str, name: &str, node_port: u16, service_type: ServiceType) -> (r: Result<String>)
        requires
            old(self).wf(),
        ensures
            final(self).wf(),
            r is Err ==> same_sim(*old(self), *final(self)),
            service_fault(*old(self), interface@, node_port) matches Some(k) ==> r is Err && r->Err_0.kind() == k,
            r is Ok ==> service_fault(*old(self), interface@, node_port) is None,
            r is Err && service_fault(*old(self), interface@, node_port) is None ==> r->Err_0 is Conflict,
            r matches Ok(id) ==> !has_key(old(self).services@, id@)
                && service_added(*old(self), *final(self), id@, interface@, name@, node_port, service_type),
    {
        let key = new_id();
        self.create_service_with_id(interface, name, node_port, service_type, key)
    }

    /// `create_service` with the identifier already drawn.
    pub fn create_service_with_id(&mut self, interface: &str, name: &str, node_port: u16, service_type: ServiceType, key: String) -> (r: Result<String>)
        requires
            old(self).wf(),
        ensures
            final(self).wf(),
            r is Err ==> same_sim(*old(self), *final(self)),
            service_fault(*old(self), interface@, node_port) matches Some(k) ==> r is Err && r->Err_0.kind() == k,
            r is Ok ==> service_fault(*old(self), interface@, node_port) is None,
            r is Err && service_fault(*old(self), interface@, node_port) is None ==> r->Err_0 is Conflict,
            r matches Ok(id) ==> !has_key(old(self).services@, id@)
                && service_added(*old(self), *final(self), id@, interface@, name@, node_port, service_type),
            service_fault(*old(self), interface@, node_port) is None && !has_key(old(self).services@, key@) ==> r is Ok,
            r matches Ok(k) ==> k@ == key@,
    {
        self.inactive()?;
        let i = match find(&self.interfaces, interface) {
            Some(i) => i,
            None => return Err(Error::NotFound(interface.to_owned())),
        };
        proof { lemma_index_of_key(self.interfaces@, i as int); }
        if self.interfaces[i].split_children.len() > 0 || node_port == 0 {
            return Err(invalid("service needs usable interface and nonzero port"));
        }
        let mut j: usize = 0;
        while j < self.services.len()
            invariant
                j <= self.services@.len(),
                forall|x: int| 0 <= x < j ==> !((#[trigger] self.services@[x]).interface@ == interface@
                    && self.services@[x].node_port == node_port),
            decreases self.services@.len() - j,
        {
            if str_eq(self.services[j].interface.as_str(), interface) && self.services[j].node_port == node_port {
                return Err(conflict("service port already registered"));
            }
            j += 1;
        }
        crate::limits::capacity("services capacity exceeded", self.services.len(), 1, self.limits.services)?;

        if find(&self.services, key.as_str()).is_some() {
            return Err(conflict("service identifier collision"));
        }
        let ghost a = *self;
        let s = Service {
            id: key.clone(),
            name: name.to_owned(),
            interface: interface.to_owned(),
            node_port,
            service_type,
            worker_port: None,
            worker_fqdn: None,
        };
        proof { crate::keyed::lemma_push_key(a.services@, s); }
        self.services.push(s);
        let ghost mid = *self;
        proof {
            assert(self.services@.drop_last() =~= a.services@);
            assert forall|x: int| 0 <= x < self.services@.len() implies has_key(self.interfaces@, #[trigger] self.services@[x].interface@) by {
                if x < a.services@.len() {
                    assert(self.services@[x] == a.services@[x]);
                }
            }
        }
        self.event("service registered");
        proof {
            assert(service_pushed(a, mid, key@, interface@, name@, node_port, service_type));
            assert(recorded(mid, *self, "service registered"@));
        }
        Ok(key)
    }

    /// Removes a service of an inactive simulation.
    pub fn delete_service(&mut self, service: &str) -> (r: Result<()>)
        requires
            old(self).wf(),
        ensures
            final(self).wf(),
            r is Err ==> same_sim(*old(self), *final(self)),
            old(self).state != State::Inactive ==> r is Err && r->Err_0 is State,
            old(self).state == State::Inactive && !has_key(old(self).services@, service@) ==> r is Err && r->Err_0 is NotFound,
            r is Ok <==> old(self).state == State::Inactive && has_key(old(self).services@, service@),
            r is Ok ==> recorded((Simulation {
                services: final(self).services,
                modified: old(self).modified,
                history: old(self).history,
                ..*old(self)
            }), *final(self), "service deleted"@)
                && final(self).services@ == old(self).services@.remove(key_index(old(self).services@, service@)),
    {
        self.inactive()?;
        let k = match find(&self.services, service) {
            Some(k) => k,
            None => return Err(Error::NotFound(service.to_owned())),
        };
        proof {
            lemma_index_of_key(self.services@, k as int);
            crate::keyed::lemma_remove_key(self.services@, k as int);
        }
        let ghost a = *self;
        self.services.remove(k);
        let ghost mid = *self;
        proof {
            assert forall|x: int| 0 <= x < self.services@.len() implies has_key(self.interfaces@, #[trigger] self.services@[x].interface@) by {
                let y = if x < k { x } else { x + 1 };
                assert(self.services@[x] == a.services@[y]);
            }
        }
        self.event("service deleted");
        proof {
            assert(mid == Simulation { services: mid.services, modified: a.modified, history: a.history, ..a });
        }
        Ok(())
    }

    /// The ZTP script, when there is one.
    pub fn ztp_script(&self) -> (r: Option<&str>)
        ensures
            r is None <==> self.ztp_script is None,
            r matches Some(t) ==> t@ == self.ztp_script->0@,
    {
        match &self.ztp_script {
            Some(s) => Some(s.as_str()),
            None => None,
        }
    }

    /// Sets the ZTP script of an inactive simulation that has none.
    pub fn create_ztp_script(&mut self, content: String) -> (r: Result<()>)
        requires
            old(self).wf(),
        ensures
            final(self).wf(),
            r is Err ==> same_sim(*old(self), *final(self)),
            old(self).state != State::Inactive ==> r is Err && r->Err_0 is State,
            old(self).state == State::Inactive && old(self).ztp_script is Some ==> r is Err && r->Err_0 is Conflict,
            r is Ok <==> old(self).state == State::Inactive && old(self).ztp_script is None,
            r is Ok ==> recorded((Simulation { ztp_script: Some(content), ..*old(self) }), *final(self), "ZTP script created"@),
    {
        self.inactive()?;
        if self.ztp_script.is_some() {
            return Err(conflict("ZTP script exists"));
        }
        self.ztp_script = Some(content);
        self.event("ZTP script created");
        Ok(())
    }

    /// Replaces the ZTP script of an inactive simulation that has one.
    pub fn update_ztp_script(&mut self, content: String) -> (r: Result<()>)
        requires
            old(self).wf(),
        ensures
            final(self).wf(),
            r is Err ==> same_sim(*old(self), *final(self)),
            old(self).state != State::Inactive ==> r is Err && r->Err_0 is State,
            old(self).state == State::Inactive && old(self).ztp_script is None ==> r is Err && r->Err_0 is NotFound,
            r is Ok <==> old(self).state == State::Inactive && old(self).ztp_script is Some,
            r is Ok ==> recorded((Simulation { ztp_script: Some(content), ..*old(self) }), *final(self), "ZTP script updated"@),
    {
        self.inactive()?;
        if self.ztp_script.is_none() {
            return Err(Error::NotFound("ZTP script".to_owned()));
        }
        self.ztp_script = Some(content);
        self.event("ZTP script updated");
        Ok(())
    }

    /// Removes the ZTP script of an inactive simulation.
    pub fn delete_ztp_script(&mut self) -> (r: Result<()>)
        requires
            old(self).wf(),
        ensures
            final(self).wf(),
            r is Err ==> same_sim(*old(self), *final(self)),
            old(self).state != State::Inactive ==> r is Err && r->Err_0 is State,
            old(self).state == State::Inactive && old(self).ztp_script is None ==> r is Err && r->Err_0 is NotFound,
            r is Ok <==> old(self).state == State::Inactive && old(self).ztp_script is Some,
            r is Ok ==> recorded((Simulation { ztp_script: None, ..*old(self) }), *final(self), "ZTP script deleted"@),
    {
        self.inactive()?;
        if self.ztp_script.is_none() {
            return Err(Error::NotFound("ZTP script".to_owned()));
        }
        self.ztp_script = None;
        self.event("ZTP script deleted");
        Ok(())
    }

    /// Renames the simulation and sets or clears its metadata; `None` keeps a value.
    pub fn update(&mut self, new_name: Option<&str>, metadata: Option<Option<String>>) -> (r: Result<()>)
        requires
            old(self).wf(),
        ensures
            final(self).wf(),
            r is Err ==> same_sim(*old(self), *final(self)),
            r is Err <==> (new_name matches Some(n) && blank(n@)),
            r is Err ==> r->Err_0 is Invalid,
            r is Ok ==> exists|mid: Simulation| #[trigger] recorded(mid, *final(self), "updated"@)
                && (new_name matches Some(n) ==> mid.name@ == n@)
                && (new_name is None ==> mid.name == old(self).name)
                && (metadata matches Some(m) ==> mid.metadata == m)
                && (metadata is None ==> mid.metadata == old(self).metadata)
                && mid == (Simulation { name: mid.name, metadata: mid.metadata, ..*old(self) }),
    {
        if let Some(n) = new_name {
            if is_blank(n) {
                return Err(invalid("simulation name is empty"));
            }
        }
        if let Some(n) = new_name {
            self.name = n.to_owned();
        }
        if let Some(m) = metadata {
            self.metadata = m;
        }
        let ghost mid = *self;
        self.event("updated");
        proof { assert(recorded(mid, *self, "updated"@)); }
        Ok(())
    }

    /// Sets when the simulation goes to sleep and when it expires; sleeping after
    /// expiry is refused.
    pub fn set_schedule(&mut self, sleep_at: Option<Instant>, expires_at: Option<Instant>) -> (r: Result<()>)
        requires
            old(self).wf(),
        ensures
            final(self).wf(),
            r is Err ==> same_sim(*old(self), *final(self)),
            r is Err <==> (sleep_at matches Some(s) && expires_at matches Some(e) && !instant_le(s, e)),
            r is Err ==> r->Err_0 is Invalid,
            r is Ok ==> recorded((Simulation { sleep_at: sleep_at, expires_at: expires_at, ..*old(self) }), *final(self), "schedule updated"@),
    {
        if let (Some(s), Some(e)) = (sleep_at, expires_at) {
            if !s.not_after(&e) {
                return Err(invalid("sleep_at is later than expires_at"));
            }
        }
        self.sleep_at = sleep_at;
        self.expires_at = expires_at;
        self.event("schedule updated");
        Ok(())
    }

    /// `Ok` when the simulation is already in `target`: transitions complete synchronously.
    pub fn wait_for_state(&self, target: State) -> (r: Result<()>)
        ensures
            r is Ok <==> self.state == target,
            r is Err ==> r->Err_0 is Timeout,
    {
        if self.state != target {
            return Err(Error::Timeout("state differs from the requested state".to_owned()));
        }
        Ok(())
    }
}

/// Sums of the nodes' declared resources, field by field.
pub open spec fn cpu_total(nodes: Seq<crate::model::Node>) -> int
    decreases nodes.len(),
{
    if nodes.len() == 0 { 0 } else { cpu_total(nodes.drop_last()) + nodes.last().spec.resources.cpu }
}

pub open spec fn memory_total(nodes: Seq<crate::model::Node>) -> int
    decreases nodes.len(),
{
    if nodes.len() == 0 { 0 } else { memory_total(nodes.drop_last()) + nodes.last().spec.resources.memory }
}

pub open spec fn storage_total(nodes: Seq<crate::model::Node>) -> int
    decreases nodes.len(),
{
    if nodes.len() == 0 { 0 } else { storage_total(nodes.drop_last()) + nodes.last().spec.resources.storage }
}

proof fn lemma_totals_grow(nodes: Seq<crate::model::Node>, i: int, j: int)
    requires
        0 <= i <= j <= nodes.len(),
    ensures
        cpu_total(nodes.subrange(0, i)) <= cpu_total(nodes.subrange(0, j)),
        memory_total(nodes.subrange(0, i)) <= memory_total(nodes.subrange(0, j)),
        storage_total(nodes.subrange(0, i)) <= storage_total(nodes.subrange(0, j)),
    decreases j - i,
{
    if i < j {
        lemma_totals_grow(nodes, i, j - 1);
        assert(nodes.subrange(0, j).drop_last() =~= nodes.subrange(0, j - 1));
    }
}

impl Simulation {
    /// The resources all nodes declare together; `Invalid` when a total overflows.
    pub fn required_resources(&self) -> (r: Result<Resources>)
        ensures
            r is Ok <==> cpu_total(self.nodes@) <= u32::MAX && memory_total(self.nodes@) <= u64::MAX
                && storage_total(self.nodes@) <= u64::MAX,
            r matches Ok(t) ==> t.cpu == cpu_total(self.nodes@) && t.memory == memory_total(self.nodes@)
                && t.storage == storage_total(self.nodes@),
            r is Err ==> r->Err_0 is Invalid,
    {
        let mut cpu: u32 = 0;
        let mut memory: u64 = 0;
        let mut storage: u64 = 0;
        let mut i: usize = 0;
        proof { assert(self.nodes@.subrange(0, 0).len() == 0); }
        while i < self.nodes.len()
            invariant
                i <= self.nodes@.len(),
                cpu == cpu_total(self.nodes@.subrange(0, i as int)),
                memory == memory_total(self.nodes@.subrange(0, i as int)),
                storage == storage_total(self.nodes@.subrange(0, i as int)),
            decreases self.nodes@.len() - i,
        {
            proof {
                assert(self.nodes@.subrange(0, i + 1).drop_last() =~= self.nodes@.subrange(0, i as int));
                lemma_totals_grow(self.nodes@, i + 1, self.nodes@.len() as int);
                assert(self.nodes@.subrange(0, self.nodes@.len() as int) =~= self.nodes@);
            }
            let r = &self.nodes[i].spec.resources;
            cpu = match cpu.checked_add(r.cpu) {
                Some(v) => v,
                None => return Err(invalid("CPU total overflow")),
            };
            memory = match memory.checked_add(r.memory) {
                Some(v) => v,
                None => return Err(invalid("memory total overflow")),
            };
            storage = match storage.checked_add(r.storage) {
                Some(v) => v,
                None => return Err(invalid("storage total overflow")),
            };
            i += 1;
        }
        proof { assert(self.nodes@.subrange(0, i as int) =~= self.nodes@); }
        Ok(Resources { cpu, memory, storage })
    }
}

} // verus!
