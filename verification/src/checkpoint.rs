#![verifier::loop_isolation(false)]
//! Checkpoints: guest runtimes and instruction states saved together with the
//! exact configuration they belong to, and restorable only onto that configuration.
use vstd::prelude::*;
use crate::keyed::{Keyed, has_key, unique_keys, find, str_eq, key_index, keyed, lemma_index_of_key};
use crate::model::{same_sim, Error, ErrorKind, Result, Instant, State, NodeSpec, Node, NodeRuntime, Interface, Link, Service,
    InstructionData, InstructionState, Instruction, Checkpoint, Configuration, NodeConfig, InstructionConfig, Simulation,
    Pairs, conflict, recorded, keys_unique, clone_pairs, clone_strings};
use crate::outside::{new_id, now};

verus! {

pub open spec fn same_opt(a: Option<String>, b: Option<String>) -> bool {
    match (a, b) {
        (None, None) => true,
        (Some(x), Some(y)) => x@ == y@,
        _ => false,
    }
}

pub open spec fn same_pairs(a: Seq<(String, String)>, b: Seq<(String, String)>) -> bool {
    a.len() == b.len() && forall|i: int| 0 <= i < a.len() ==> (#[trigger] a[i]).0@ == b[i].0@ && a[i].1@ == b[i].1@
}

pub open spec fn same_strs(a: Seq<String>, b: Seq<String>) -> bool {
    a.len() == b.len() && forall|i: int| 0 <= i < a.len() ==> (#[trigger] a[i])@ == b[i]@
}

pub open spec fn same_spec(a: NodeSpec, b: NodeSpec) -> bool {
    &&& a.name@ == b.name@ && a.image@ == b.image@ && a.role == b.role && a.resources == b.resources
    &&& same_pairs(a.labels@, b.labels@)
}

/// A node's configuration: everything but its state, generation and runtime.
pub open spec fn node_config(c: NodeConfig, n: Node) -> bool {
    &&& c.id@ == n.id@ && same_spec(c.spec, n.spec)
    &&& same_opt(c.user_data, n.user_data) && same_opt(c.meta_data, n.meta_data)
    &&& same_opt(c.management_ip, n.management_ip) && same_pairs(c.manifest_fields@, n.manifest_fields@)
}

pub open spec fn same_interface(a: Interface, b: Interface) -> bool {
    &&& a.id@ == b.id@ && a.node@ == b.node@ && a.name@ == b.name@ && a.interface_type == b.interface_type
    &&& a.mac_address@ == b.mac_address@ && same_opt(a.connection, b.connection)
    &&& same_opt(a.split_parent, b.split_parent) && same_strs(a.split_children@, b.split_children@)
}

pub open spec fn same_link(a: Link, b: Link) -> bool {
    a.id@ == b.id@ && a.interfaces[0]@ == b.interfaces[0]@ && a.interfaces[1]@ == b.interfaces[1]@ && a.spec == b.spec
}

pub open spec fn same_service(a: Service, b: Service) -> bool {
    &&& a.id@ == b.id@ && a.name@ == b.name@ && a.interface@ == b.interface@ && a.node_port == b.node_port
    &&& a.service_type == b.service_type && a.worker_port == b.worker_port && same_opt(a.worker_fqdn, b.worker_fqdn)
}

pub open spec fn same_data(a: InstructionData, b: InstructionData) -> bool {
    match (a, b) {
        (InstructionData::Init { hostname: x }, InstructionData::Init { hostname: y }) => x@ == y@,
        (InstructionData::File { files: x }, InstructionData::File { files: y }) => same_pairs(x@, y@),
        (InstructionData::Shell { commands: x }, InstructionData::Shell { commands: y }) => same_strs(x@, y@),
        _ => false,
    }
}

/// An instruction's configuration: everything but its state.
pub open spec fn instruction_config(c: InstructionConfig, i: Instruction) -> bool {
    c.id@ == i.id@ && c.node@ == i.node@ && same_data(c.data, i.data) && c.run_again_on_rebuild == i.run_again_on_rebuild
}

/// `c` is the configuration of `s`: nodes, interfaces, links, services and
/// instructions in order, the ZTP script and the OOB settings.
pub open spec fn config_of(c: Configuration, s: Simulation) -> bool {
    &&& c.nodes@.len() == s.nodes@.len()
    &&& forall|i: int| 0 <= i < c.nodes@.len() ==> node_config(#[trigger] c.nodes@[i], s.nodes@[i])
    &&& c.interfaces@.len() == s.interfaces@.len()
    &&& forall|i: int| 0 <= i < c.interfaces@.len() ==> same_interface(#[trigger] c.interfaces@[i], s.interfaces@[i])
    &&& c.links@.len() == s.links@.len()
    &&& forall|i: int| 0 <= i < c.links@.len() ==> same_link(#[trigger] c.links@[i], s.links@[i])
    &&& c.services@.len() == s.services@.len()
    &&& forall|i: int| 0 <= i < c.services@.len() ==> same_service(#[trigger] c.services@[i], s.services@[i])
    &&& c.instructions@.len() == s.instructions@.len()
    &&& forall|i: int| 0 <= i < c.instructions@.len() ==> instruction_config(#[trigger] c.instructions@[i], s.instructions@[i])
    &&& same_opt(c.ztp, s.ztp_script) && c.oob == s.auto_oob_enabled && c.dhcp == s.enable_dhcp
}

fn eq_opt(a: &Option<String>, b: &Option<String>) -> (r: bool)
    ensures
        r == same_opt(*a, *b),
{
    match (a, b) {
        (None, None) => true,
        (Some(x), Some(y)) => str_eq(x.as_str(), y.as_str()),
        _ => false,
    }
}

fn eq_pairs(a: &Pairs, b: &Pairs) -> (r: bool)
    ensures
        r == same_pairs(a@, b@),
{
    if a.len() != b.len() {
        return false;
    }
    let mut i: usize = 0;
    while i < a.len()
        invariant
            a@.len() == b@.len(),
            i <= a@.len(),
            forall|j: int| 0 <= j < i ==> (#[trigger] a@[j]).0@ == b@[j].0@ && a@[j].1@ == b@[j].1@,
        decreases a@.len() - i,
    {
        if !str_eq(a[i].0.as_str(), b[i].0.as_str()) || !str_eq(a[i].1.as_str(), b[i].1.as_str()) {
            return false;
        }
        i += 1;
    }
    true
}

fn eq_strs(a: &Vec<String>, b: &Vec<String>) -> (r: bool)
    ensures
        r == same_strs(a@, b@),
{
    if a.len() != b.len() {
        return false;
    }
    let mut i: usize = 0;
    while i < a.len()
        invariant
            a@.len() == b@.len(),
            i <= a@.len(),
            forall|j: int| 0 <= j < i ==> (#[trigger] a@[j])@ == b@[j]@,
        decreases a@.len() - i,
    {
        if !str_eq(a[i].as_str(), b[i].as_str()) {
            return false;
        }
        i += 1;
    }
    true
}

fn eq_spec(a: &NodeSpec, b: &NodeSpec) -> (r: bool)
    ensures
        r == same_spec(*a, *b),
{
    str_eq(a.name.as_str(), b.name.as_str()) && str_eq(a.image.as_str(), b.image.as_str()) && a.role == b.role
        && a.resources == b.resources && eq_pairs(&a.labels, &b.labels)
}

pub(crate) fn eq_data(a: &InstructionData, b: &InstructionData) -> (r: bool)
    ensures
        r == same_data(*a, *b),
{
    match (a, b) {
        (InstructionData::Init { hostname: x }, InstructionData::Init { hostname: y }) => str_eq(x.as_str(), y.as_str()),
        (InstructionData::File { files: x }, InstructionData::File { files: y }) => eq_pairs(x, y),
        (InstructionData::Shell { commands: x }, InstructionData::Shell { commands: y }) => eq_strs(x, y),
        _ => false,
    }
}

fn clone_opt(a: &Option<String>) -> (r: Option<String>)
    ensures
        r == *a,
{
    match a {
        Some(x) => Some(x.clone()),
        None => None,
    }
}

fn clone_spec(a: &NodeSpec) -> (r: NodeSpec)
    ensures
        same_spec(r, *a),
{
    NodeSpec {
        name: a.name.clone(),
        image: a.image.clone(),
        role: a.role,
        resources: a.resources,
        labels: clone_pairs(&a.labels),
    }
}

fn clone_interface(a: &Interface) -> (r: Interface)
    ensures
        same_interface(r, *a),
{
    Interface {
        id: a.id.clone(),
        node: a.node.clone(),
        name: a.name.clone(),
        interface_type: a.interface_type,
        mac_address: a.mac_address.clone(),
        connection: clone_opt(&a.connection),
        split_parent: clone_opt(&a.split_parent),
        split_children: clone_strings(&a.split_children),
    }
}

fn clone_link(a: &Link) -> (r: Link)
    ensures
        same_link(r, *a),
{
    Link { id: a.id.clone(), interfaces: [a.interfaces[0].clone(), a.interfaces[1].clone()], spec: a.spec }
}

fn clone_service(a: &Service) -> (r: Service)
    ensures
        same_service(r, *a),
{
    Service {
        id: a.id.clone(),
        name: a.name.clone(),
        interface: a.interface.clone(),
        node_port: a.node_port,
        service_type: a.service_type,
        worker_port: a.worker_port,
        worker_fqdn: clone_opt(&a.worker_fqdn),
    }
}

pub fn clone_data(a: &InstructionData) -> (r: InstructionData)
    ensures
        same_data(r, *a),
{
    match a {
        InstructionData::Init { hostname } => InstructionData::Init { hostname: hostname.clone() },
        InstructionData::File { files } => InstructionData::File { files: clone_pairs(files) },
        InstructionData::Shell { commands } => InstructionData::Shell { commands: clone_strings(commands) },
    }
}

pub fn clone_runtime(a: &NodeRuntime) -> (r: NodeRuntime)
    ensures
        r.hostname == a.hostname && r.files@ == a.files@,
{
    NodeRuntime { hostname: a.hostname.clone(), files: clone_pairs(&a.files) }
}

impl Simulation {
    /// The current configuration.
    pub fn configuration(&self) -> (r: Configuration)
        ensures
            config_of(r, *self),
    {
        let mut nodes: Vec<NodeConfig> = Vec::new();
        let mut i: usize = 0;
        while i < self.nodes.len()
            invariant
                i <= self.nodes@.len(),
                nodes@.len() == i,
                forall|j: int| 0 <= j < i ==> node_config(#[trigger] nodes@[j], self.nodes@[j]),
            decreases self.nodes@.len() - i,
        {
            let n = &self.nodes[i];
            nodes.push(NodeConfig {
                id: n.id.clone(),
                spec: clone_spec(&n.spec),
                user_data: clone_opt(&n.user_data),
                meta_data: clone_opt(&n.meta_data),
                management_ip: clone_opt(&n.management_ip),
                manifest_fields: clone_pairs(&n.manifest_fields),
            });
            i += 1;
        }
        let mut interfaces: Vec<Interface> = Vec::new();
        let mut i: usize = 0;
        while i < self.interfaces.len()
            invariant
                i <= self.interfaces@.len(),
                interfaces@.len() == i,
                forall|j: int| 0 <= j < i ==> same_interface(#[trigger] interfaces@[j], self.interfaces@[j]),
            decreases self.interfaces@.len() - i,
        {
            interfaces.push(clone_interface(&self.interfaces[i]));
            i += 1;
        }
        let mut links: Vec<Link> = Vec::new();
        let mut i: usize = 0;
        while i < self.links.len()
            invariant
                i <= self.links@.len(),
                links@.len() == i,
                forall|j: int| 0 <= j < i ==> same_link(#[trigger] links@[j], self.links@[j]),
            decreases self.links@.len() - i,
        {
            links.push(clone_link(&self.links[i]));
            i += 1;
        }
        let mut services: Vec<Service> = Vec::new();
        let mut i: usize = 0;
        while i < self.services.len()
            invariant
                i <= self.services@.len(),
                services@.len() == i,
                forall|j: int| 0 <= j < i ==> same_service(#[trigger] services@[j], self.services@[j]),
            decreases self.services@.len() - i,
        {
            services.push(clone_service(&self.services[i]));
            i += 1;
        }
        let mut instructions: Vec<InstructionConfig> = Vec::new();
        let mut i: usize = 0;
        while i < self.instructions.len()
            invariant
                i <= self.instructions@.len(),
                instructions@.len() == i,
                forall|j: int| 0 <= j < i ==> instruction_config(#[trigger] instructions@[j], self.instructions@[j]),
            decreases self.instructions@.len() - i,
        {
            let x = &self.instructions[i];
            instructions.push(InstructionConfig {
                id: x.id.clone(),
                node: x.node.clone(),
                data: clone_data(&x.data),
                run_again_on_rebuild: x.run_again_on_rebuild,
            });
            i += 1;
        }
        Configuration {
            nodes,
            interfaces,
            links,
            services,
            instructions,
            ztp: clone_opt(&self.ztp_script),
            oob: self.auto_oob_enabled,
            dhcp: self.enable_dhcp,
        }
    }

    /// Is `c` the current configuration?
    pub fn configuration_is(&self, c: &Configuration) -> (r: bool)
        ensures
            r == config_of(*c, *self),
    {
        if c.nodes.len() != self.nodes.len() || c.interfaces.len() != self.interfaces.len()
            || c.links.len() != self.links.len() || c.services.len() != self.services.len()
            || c.instructions.len() != self.instructions.len() {
            return false;
        }
        let mut i: usize = 0;
        while i < c.nodes.len()
            invariant
                c.nodes@.len() == self.nodes@.len(),
                i <= c.nodes@.len(),
                forall|j: int| 0 <= j < i ==> node_config(#[trigger] c.nodes@[j], self.nodes@[j]),
            decreases c.nodes@.len() - i,
        {
            let a = &c.nodes[i];
            let b = &self.nodes[i];
            if !(str_eq(a.id.as_str(), b.id.as_str()) && eq_spec(&a.spec, &b.spec) && eq_opt(&a.user_data, &b.user_data)
                && eq_opt(&a.meta_data, &b.meta_data) && eq_opt(&a.management_ip, &b.management_ip)
                && eq_pairs(&a.manifest_fields, &b.manifest_fields)) {
                return false;
            }
            i += 1;
        }
        let mut i: usize = 0;
        while i < c.interfaces.len()
            invariant
                c.interfaces@.len() == self.interfaces@.len(),
                i <= c.interfaces@.len(),
                forall|j: int| 0 <= j < i ==> same_interface(#[trigger] c.interfaces@[j], self.interfaces@[j]),
            decreases c.interfaces@.len() - i,
        {
            let a = &c.interfaces[i];
            let b = &self.interfaces[i];
            if !(str_eq(a.id.as_str(), b.id.as_str()) && str_eq(a.node.as_str(), b.node.as_str())
                && str_eq(a.name.as_str(), b.name.as_str()) && a.interface_type == b.interface_type
                && str_eq(a.mac_address.as_str(), b.mac_address.as_str()) && eq_opt(&a.connection, &b.connection)
                && eq_opt(&a.split_parent, &b.split_parent) && eq_strs(&a.split_children, &b.split_children)) {
                return false;
            }
            i += 1;
        }
        let mut i: usize = 0;
        while i < c.links.len()
            invariant
                c.links@.len() == self.links@.len(),
                i <= c.links@.len(),
                forall|j: int| 0 <= j < i ==> same_link(#[trigger] c.links@[j], self.links@[j]),
            decreases c.links@.len() - i,
        {
            let a = &c.links[i];
            let b = &self.links[i];
            if !(str_eq(a.id.as_str(), b.id.as_str()) && str_eq(a.interfaces[0].as_str(), b.interfaces[0].as_str())
                && str_eq(a.interfaces[1].as_str(), b.interfaces[1].as_str()) && a.spec == b.spec) {
                return false;
            }
            i += 1;
        }
        let mut i: usize = 0;
        while i < c.services.len()
            invariant
                c.services@.len() == self.services@.len(),
                i <= c.services@.len(),
                forall|j: int| 0 <= j < i ==> same_service(#[trigger] c.services@[j], self.services@[j]),
            decreases c.services@.len() - i,
        {
            let a = &c.services[i];
            let b = &self.services[i];
            if !(str_eq(a.id.as_str(), b.id.as_str()) && str_eq(a.name.as_str(), b.name.as_str())
                && str_eq(a.interface.as_str(), b.interface.as_str()) && a.node_port == b.node_port
                && a.service_type == b.service_type && a.worker_port == b.worker_port
                && eq_opt(&a.worker_fqdn, &b.worker_fqdn)) {
                return false;
            }
            i += 1;
        }
        let mut i: usize = 0;
        while i < c.instructions.len()
            invariant
                c.instructions@.len() == self.instructions@.len(),
                i <= c.instructions@.len(),
                forall|j: int| 0 <= j < i ==> instruction_config(#[trigger] c.instructions@[j], self.instructions@[j]),
            decreases c.instructions@.len() - i,
        {
            let a = &c.instructions[i];
            let b = &self.instructions[i];
            if !(str_eq(a.id.as_str(), b.id.as_str()) && str_eq(a.node.as_str(), b.node.as_str())
                && eq_data(&a.data, &b.data) && a.run_again_on_rebuild == b.run_again_on_rebuild) {
                return false;
            }
            i += 1;
        }
        eq_opt(&c.ztp, &self.ztp_script) && c.oob == self.auto_oob_enabled && c.dhcp == self.enable_dhcp
    }
}

} // verus!
