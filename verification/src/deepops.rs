//! DeepOps deployment plans for VM guests of an imported topology, and the checks
//! that Ansible inventories and Slurm and nccl-tests reports must pass. Reading
//! files and running the deployment are the caller's business.
use vstd::prelude::*;
use crate::keyed::{Keyed, str_eq, has_key, keyed};
use crate::model::{Error, Result, Role, State, Simulation, Node, invalid, clone_strings};
use crate::manifest::Manifest;
use crate::api::Simulator;
use crate::text::{bytes, utf8, is_hex, ascii_chars, all_ascii, decimal, lemma_decimal_ascii, push_decimal, ascii_string};
use crate::topology::{route_ok, views, graph_fits, graph_fault};

verus! {

/// The DeepOps revision plans are made for.
pub fn deepops_commit() -> (r: String)
    ensures
        r@ == "dc80499ea34b3f36563ed039421076de15071517"@,
{
    "dc80499ea34b3f36563ed039421076de15071517".to_owned()
}

/// The nccl-tests revision plans are made for.
pub fn nccl_tests_commit() -> (r: String)
    ensures
        r@ == "b4d5beebca8a76cf01335f724d154b9b9d394d96"@,
{
    "b4d5beebca8a76cf01335f724d154b9b9d394d96".to_owned()
}

/// The NCCL revision plans are made for.
pub fn nccl_commit() -> (r: String)
    ensures
        r@ == "16b55c792f902080c38820c9c2bd766337909da3"@,
{
    "16b55c792f902080c38820c9c2bd766337909da3".to_owned()
}

/// A deployment: one controller and 2, 4, 8 or 16 compute guests of the topology
/// in `manifest`, plus the provisioner host. Paths are as given.
#[derive(Clone, Debug)]
pub struct DeepOpsConfig {
    pub repository: String,
    pub manifest: String,
    pub image: String,
    pub image_sha256: String,
    pub state_dir: String,
    pub ansible_bin: String,
    pub provisioner: String,
    pub controller: String,
    pub compute: Vec<String>,
    /// PCI functions already bound to vfio-pci, by compute guest.
    pub vfio: Vec<(String, Vec<String>)>,
    pub timeout_secs: u64,
    pub boot_timeout_secs: u64,
}

/// Deployment deadline in seconds, unless configured.
pub fn deadline() -> (r: u64)
    ensures
        r == 7200,
{
    7200
}

/// Guest boot deadline in seconds, unless configured.
pub fn boot_deadline() -> (r: u64)
    ensures
        r == 600,
{
    600
}

#[derive(Clone, Debug)]
pub struct GuestPlan {
    pub name: String,
    pub node_id: String,
    pub address: [u8; 4],
    pub cpus: u32,
    pub memory_mib: u64,
    pub disk_gib: u64,
    pub vfio: Vec<String>,
}

/// The Ansible inventory: the controller as Slurm master and login host, the
/// compute guests as Slurm nodes.
#[derive(Clone, Debug)]
pub struct Inventory {
    pub master: Vec<(String, [u8; 4])>,
    pub nodes: Vec<(String, [u8; 4])>,
    pub login: String,
}

#[derive(Clone, Debug)]
pub struct DeepOpsPlan {
    pub guests: Vec<GuestPlan>,
    pub provisioner_id: String,
    pub inventory: Inventory,
    pub deepops_revision: String,
    pub nccl_revision: String,
    pub nccl_tests_revision: String,
}

/// A PCI function address `dddd:bb:ss.f` in hexadecimal, with function 0 to 7.
pub open spec fn bdf_ok(b: Seq<u8>) -> bool {
    &&& b.len() == 12
    &&& b[4] == 0x3a && b[7] == 0x3a && b[10] == 0x2e
    &&& forall|i: int| 0 <= i < 12 && i != 4 && i != 7 && i != 10 ==> is_hex(#[trigger] b[i])
    &&& b[11] <= 0x37
}

pub fn valid_bdf(value: &str) -> (r: bool)
    ensures
        r == bdf_ok(utf8(value@)),
{
    let b = bytes(value);
    if b.len() != 12 || b[4] != 0x3a || b[7] != 0x3a || b[10] != 0x2e || b[11] > 0x37 {
        return false;
    }
    let mut i: usize = 0;
    while i < 12
        invariant
            b@ == utf8(value@),
            b@.len() == 12,
            i <= 12,
            forall|k: int| 0 <= k < i && k != 4 && k != 7 && k != 10 ==> is_hex(#[trigger] b@[k]),
        decreases 12 - i,
    {
        if i != 4 && i != 7 && i != 10 {
            let c = b[i];
            if !((0x30 <= c && c <= 0x39) || (0x41 <= c && c <= 0x46) || (0x61 <= c && c <= 0x66)) {
                proof { assert(!is_hex(b@[i as int])); }
                return false;
            }
        }
        i += 1;
    }
    true
}

/// A lower-case DNS host name: letters, digits and inner hyphens (or nothing).
pub open spec fn hostname_ok(b: Seq<u8>) -> bool {
    &&& b.len() > 0 ==> b[0] != 0x2d && b[b.len() - 1] != 0x2d
    &&& forall|i: int| 0 <= i < b.len() ==> (0x61 <= #[trigger] b[i] <= 0x7a) || (0x30 <= b[i] <= 0x39) || b[i] == 0x2d
}

fn hostname(value: &str) -> (r: bool)
    ensures
        r == hostname_ok(utf8(value@)),
{
    let b = bytes(value);
    if b.len() > 0 && (b[0] == 0x2d || b[b.len() - 1] == 0x2d) {
        return false;
    }
    let mut i: usize = 0;
    while i < b.len()
        invariant
            b@ == utf8(value@),
            i <= b@.len(),
            forall|k: int| 0 <= k < i ==> (0x61 <= #[trigger] b@[k] <= 0x7a) || (0x30 <= b@[k] <= 0x39) || b@[k] == 0x2d,
        decreases b@.len() - i,
    {
        let c = b[i];
        if !((0x61 <= c && c <= 0x7a) || (0x30 <= c && c <= 0x39) || c == 0x2d) {
            proof { assert(!((0x61 <= b@[i as int] <= 0x7a) || (0x30 <= b@[i as int] <= 0x39) || b@[i as int] == 0x2d)); }
            return false;
        }
        i += 1;
    }
    true
}

/// 64 hexadecimal digits.
pub open spec fn sha256_text(b: Seq<u8>) -> bool {
    b.len() == 64 && forall|i: int| 0 <= i < 64 ==> is_hex(#[trigger] b[i])
}

fn sha256_ok(value: &str) -> (r: bool)
    ensures
        r == sha256_text(utf8(value@)),
{
    let b = bytes(value);
    if b.len() != 64 {
        return false;
    }
    let mut i: usize = 0;
    while i < 64
        invariant
            b@ == utf8(value@),
            b@.len() == 64,
            i <= 64,
            forall|k: int| 0 <= k < i ==> is_hex(#[trigger] b@[k]),
        decreases 64 - i,
    {
        let c = b[i];
        if !((0x30 <= c && c <= 0x39) || (0x41 <= c && c <= 0x46) || (0x61 <= c && c <= 0x66)) {
            proof { assert(!is_hex(b@[i as int])); }
            return false;
        }
        i += 1;
    }
    true
}

/// The guests in order: the controller, then the compute guests.
pub open spec fn guest_names(c: DeepOpsConfig) -> Seq<String> {
    seq![c.controller] + c.compute@
}

pub open spec fn names_in(v: Seq<String>, x: Seq<char>) -> bool {
    exists|i: int| 0 <= i < v.len() && (#[trigger] v[i])@ == x
}

/// Every VFIO device of every guest, in order.
pub open spec fn all_devices(vfio: Seq<(String, Vec<String>)>) -> Seq<String>
    decreases vfio.len(),
{
    if vfio.len() == 0 { Seq::empty() } else { all_devices(vfio.drop_last()) + vfio.last().1@ }
}

/// What the configuration must satisfy before any topology is looked at.
pub open spec fn config_ok(c: DeepOpsConfig) -> bool {
    let names = guest_names(c);
    let devices = all_devices(c.vfio@);
    &&& c.compute@.len() == 2 || c.compute@.len() == 4 || c.compute@.len() == 8 || c.compute@.len() == 16
    &&& 1 <= c.timeout_secs <= 14400 && 1 <= c.boot_timeout_secs <= 1800
    &&& sha256_text(utf8(c.image_sha256@))
    &&& forall|i: int, j: int| 0 <= i < j < names.len() ==> names[i]@ != names[j]@
    &&& !names_in(names, c.provisioner@)
    &&& forall|k: int| 0 <= k < c.vfio@.len() ==> names_in(c.compute@, (#[trigger] c.vfio@[k]).0@)
    &&& forall|i: int| 0 <= i < devices.len() ==> bdf_ok(utf8((#[trigger] devices[i])@))
    &&& forall|i: int, j: int| 0 <= i < j < devices.len() ==> devices[i]@ != devices[j]@
    &&& forall|i: int| 0 <= i < names.len() ==> hostname_ok(utf8((#[trigger] names[i])@))
    &&& hostname_ok(utf8(c.provisioner@))
}

/// The VFIO devices configured for `name`: those of its first entry, if any.
pub open spec fn vfio_of(vfio: Seq<(String, Vec<String>)>, name: Seq<char>) -> Seq<String>
    decreases vfio.len(),
{
    if vfio.len() == 0 {
        Seq::empty()
    } else if vfio[0].0@ == name {
        vfio[0].1@
    } else {
        vfio_of(vfio.drop_first(), name)
    }
}

fn distinct_strings(v: &Vec<String>) -> (r: bool)
    ensures
        r == forall|i: int, j: int| 0 <= i < j < v@.len() ==> v@[i]@ != v@[j]@,
{
    let mut i: usize = 0;
    while i < v.len()
        invariant
            i <= v@.len(),
            forall|a: int, b: int| 0 <= a < b < i ==> v@[a]@ != v@[b]@,
        decreases v@.len() - i,
    {
        let mut j: usize = 0;
        while j < i
            invariant
                i < v@.len(),
                j <= i,
                forall|a: int, b: int| 0 <= a < b < i ==> v@[a]@ != v@[b]@,
                forall|a: int| 0 <= a < j ==> v@[a]@ != v@[i as int]@,
            decreases i - j,
        {
            if str_eq(v[j].as_str(), v[i].as_str()) {
                return false;
            }
            j += 1;
        }
        i += 1;
    }
    true
}

fn contains(v: &Vec<String>, x: &str) -> (r: bool)
    ensures
        r == names_in(v@, x@),
{
    let mut i: usize = 0;
    while i < v.len()
        invariant
            i <= v@.len(),
            forall|k: int| 0 <= k < i ==> (#[trigger] v@[k])@ != x@,
        decreases v@.len() - i,
    {
        if str_eq(v[i].as_str(), x) {
            return true;
        }
        i += 1;
    }
    false
}

impl DeepOpsConfig {
    /// The guest names in order.
    fn names(&self) -> (r: Vec<String>)
        ensures
            r@ == guest_names(*self),
    {
        let mut names: Vec<String> = Vec::new();
        names.push(self.controller.clone());
        let mut i: usize = 0;
        while i < self.compute.len()
            invariant
                i <= self.compute@.len(),
                names@ == seq![self.controller] + self.compute@.subrange(0, i as int),
            decreases self.compute@.len() - i,
        {
            names.push(self.compute[i].clone());
            proof {
                assert(names@ =~= seq![self.controller] + self.compute@.subrange(0, i + 1));
            }
            i += 1;
        }
        proof { assert(self.compute@.subrange(0, i as int) =~= self.compute@); }
        names
    }

    /// `Ok` exactly when the configuration itself is sound.
    pub fn check(&self) -> (r: Result<()>)
        ensures
            r is Ok <==> config_ok(*self),
            r is Err ==> r->Err_0 is Invalid,
    {
        let n = self.compute.len();
        if !(n == 2 || n == 4 || n == 8 || n == 16) || self.timeout_secs < 1 || self.timeout_secs > 14400
            || self.boot_timeout_secs < 1 || self.boot_timeout_secs > 1800 || !sha256_ok(self.image_sha256.as_str()) {
            return Err(invalid("require 2, 4, 8 or 16 compute nodes, bounded deadlines and an image SHA-256"));
        }
        let names = self.names();
        if !distinct_strings(&names) || contains(&names, self.provisioner.as_str()) {
            return Err(invalid("controller, compute and provisioner must be distinct"));
        }
        let mut k: usize = 0;
        while k < self.vfio.len()
            invariant
                k <= self.vfio@.len(),
                forall|x: int| 0 <= x < k ==> names_in(self.compute@, (#[trigger] self.vfio@[x]).0@),
            decreases self.vfio@.len() - k,
        {
            if !contains(&self.compute, self.vfio[k].0.as_str()) {
                return Err(invalid("VFIO devices may only be assigned to compute guests"));
            }
            k += 1;
        }
        let mut seen: Vec<String> = Vec::new();
        let mut k: usize = 0;
        while k < self.vfio.len()
            invariant
                k <= self.vfio@.len(),
                seen@ == all_devices(self.vfio@.subrange(0, k as int)),
            decreases self.vfio@.len() - k,
        {
            let list = &self.vfio[k].1;
            proof {
                assert(self.vfio@.subrange(0, k + 1).drop_last() =~= self.vfio@.subrange(0, k as int));
            }
            let mut d: usize = 0;
            while d < list.len()
                invariant
                    k < self.vfio@.len(),
                    *list == self.vfio@[k as int].1,
                    d <= list@.len(),
                    seen@ == all_devices(self.vfio@.subrange(0, k as int)) + list@.subrange(0, d as int),
                decreases list@.len() - d,
            {
                seen.push(list[d].clone());
                proof {
                    assert(seen@ =~= all_devices(self.vfio@.subrange(0, k as int)) + list@.subrange(0, d + 1));
                }
                d += 1;
            }
            proof {
                assert(list@.subrange(0, d as int) =~= list@);
                assert(seen@ =~= all_devices(self.vfio@.subrange(0, k + 1)));
            }
            k += 1;
        }
        proof { assert(self.vfio@.subrange(0, k as int) =~= self.vfio@); }
        let mut d: usize = 0;
        while d < seen.len()
            invariant
                seen@ == all_devices(self.vfio@),
                d <= seen@.len(),
                forall|i: int| 0 <= i < d ==> bdf_ok(utf8((#[trigger] seen@[i])@)),
            decreases seen@.len() - d,
        {
            if !valid_bdf(seen[d].as_str()) {
                return Err(invalid("invalid or duplicate VFIO PCI function"));
            }
            d += 1;
        }
        if !distinct_strings(&seen) {
            return Err(invalid("invalid or duplicate VFIO PCI function"));
        }
        let mut k: usize = 0;
        while k < names.len()
            invariant
                names@ == guest_names(*self),
                k <= names@.len(),
                forall|i: int| 0 <= i < k ==> hostname_ok(utf8((#[trigger] names@[i])@)),
            decreases names@.len() - k,
        {
            if !hostname(names[k].as_str()) {
                proof { assert(!hostname_ok(utf8(guest_names(*self)[k as int]@))); }
                return Err(invalid("guest/provisioner names must be lowercase DNS hostnames"));
            }
            k += 1;
        }
        if !hostname(self.provisioner.as_str()) {
            return Err(invalid("guest/provisioner names must be lowercase DNS hostnames"));
        }
        Ok(())
    }
}

/// A node that can become a VM guest: a host with 1..=64 CPUs, 512..=131072 MiB of
/// memory and 8..=1024 GiB of disk.
pub open spec fn vm_node_ok(n: Node) -> bool {
    &&& n.spec.role == Role::Host
    &&& 1 <= n.spec.resources.cpu <= 64
    &&& 512 <= n.spec.resources.memory <= 131072
    &&& 8 <= n.spec.resources.storage <= 1024
}

/// Some route leads from node `x` to node `y`.
pub open spec fn reachable(sim: Simulation, x: Seq<char>, y: Seq<char>) -> bool {
    exists|links: Seq<Seq<char>>| #[trigger] route_ok(sim, x, y, links)
}

/// `g` is the plan of guest `i`, named `name`, on its node of `sim`.
pub open spec fn guest_planned(g: GuestPlan, name: Seq<char>, i: int, sim: Simulation, vfio: Seq<(String, Vec<String>)>) -> bool {
    &&& g.name@ == name
    &&& g.address == [10u8, 253u8, 0u8, (i + 1) as u8]
    &&& g.vfio@ == vfio_of(vfio, name)
    &&& exists|k: int| 0 <= k < sim.nodes@.len() && {
        let n = #[trigger] sim.nodes@[k];
        &&& n.spec.name@ == name && n.id@ == g.node_id@ && vm_node_ok(n)
        &&& g.cpus == n.spec.resources.cpu && g.memory_mib == n.spec.resources.memory
        &&& g.disk_gib == n.spec.resources.storage
    }
}

/// The VFIO devices of the first entry named `name`.
fn vfio_for(vfio: &Vec<(String, Vec<String>)>, name: &str) -> (r: Vec<String>)
    ensures
        r@ == vfio_of(vfio@, name@),
{
    let mut k: usize = 0;
    proof { assert(vfio@.subrange(0, vfio@.len() as int) =~= vfio@); }
    while k < vfio.len()
        invariant
            k <= vfio@.len(),
            vfio_of(vfio@, name@) == vfio_of(vfio@.subrange(k as int, vfio@.len() as int), name@),
        decreases vfio@.len() - k,
    {
        proof {
            let rest = vfio@.subrange(k as int, vfio@.len() as int);
            assert(rest.drop_first() =~= vfio@.subrange(k + 1, vfio@.len() as int));
            assert(rest[0] == vfio@[k as int]);
        }
        if str_eq(vfio[k].0.as_str(), name) {
            return clone_strings(&vfio[k].1);
        }
        k += 1;
    }
    Vec::new()
}

impl DeepOpsConfig {
    /// Plans the VM guests on the topology of `manifest`, imported and started:
    /// each guest needs a host node within VM bounds, reachable from the
    /// provisioner and from every other guest.
    #[verifier::spinoff_prover]
    pub fn plan(&self, manifest: Manifest) -> (r: Result<(Simulation, DeepOpsPlan)>)
        ensures
            !config_ok(*self) ==> r is Err && r->Err_0 is Invalid,
            r matches Ok((sim, plan)) ==> {
                let names = guest_names(*self);
                &&& config_ok(*self) && sim.wf() && sim.state == State::Active
                &&& plan.guests@.len() == names.len()
                &&& forall|i: int| 0 <= i < names.len() ==> guest_planned(#[trigger] plan.guests@[i], names[i]@, i, sim, self.vfio@)
                &&& exists|k: int| 0 <= k < sim.nodes@.len() && (#[trigger] sim.nodes@[k]).spec.name@ == self.provisioner@
                    && sim.nodes@[k].id@ == plan.provisioner_id@ && sim.nodes@[k].spec.role == Role::Host
                &&& forall|i: int| 0 <= i < names.len() ==> reachable(sim, plan.provisioner_id@, (#[trigger] plan.guests@[i]).node_id@)
                &&& forall|i: int, j: int| 0 <= i < names.len() && 0 <= j < names.len()
                    ==> reachable(sim, (#[trigger] plan.guests@[i]).node_id@, (#[trigger] plan.guests@[j]).node_id@)
                &&& plan.deepops_revision@ == "dc80499ea34b3f36563ed039421076de15071517"@
            },
    {
        self.check()?;
        let mut api = Simulator::new();
        api.import(manifest, true)?;
        let sim = match api.simulations.pop() {
            Some(s) => s,
            None => return Err(Error::State("imported simulation missing".to_owned())),
        };
        proof { assert(sim.wf()); }
        let plan = self.plan_simulation(&sim)?;
        Ok((sim, plan))
    }

    /// The plan for an imported, running simulation: the provisioner and every
    /// guest found by name, each guest a host within the VM bounds, and routes
    /// from the provisioner to every guest and between every two guests.
    pub fn plan_simulation(&self, sim: &Simulation) -> (r: Result<DeepOpsPlan>)
        requires
            sim.wf(),
            config_ok(*self),
        ensures
            r is Ok <==> deepops_ready(*self, *sim),
            r matches Ok(plan) ==> {
                let names = guest_names(*self);
                &&& plan.guests@.len() == names.len()
                &&& forall|i: int| 0 <= i < names.len() ==> guest_planned(#[trigger] plan.guests@[i], names[i]@, i, *sim, self.vfio@)
                &&& exists|k: int| 0 <= k < sim.nodes@.len() && (#[trigger] sim.nodes@[k]).spec.name@ == self.provisioner@
                    && sim.nodes@[k].id@ == plan.provisioner_id@ && sim.nodes@[k].spec.role == Role::Host
                &&& forall|i: int| 0 <= i < names.len() ==> reachable(*sim, plan.provisioner_id@, (#[trigger] plan.guests@[i]).node_id@)
                &&& forall|i: int, j: int| 0 <= i < names.len() && 0 <= j < names.len()
                    ==> reachable(*sim, (#[trigger] plan.guests@[i]).node_id@, (#[trigger] plan.guests@[j]).node_id@)
                &&& plan.deepops_revision@ == "dc80499ea34b3f36563ed039421076de15071517"@
            },
    {
        let names = self.names();
        let provisioner = match sim.node_named(self.provisioner.as_str()) {
            Ok(n) => n,
            Err(e) => return Err(e),
        };
        proof { lemma_keyed_name(*sim, *provisioner, self.provisioner@); }
        if provisioner.spec.role != Role::Host {
            return Err(invalid("provisioner must be a host"));
        }
        let provisioner_id = provisioner.id.clone();
        let mut guests: Vec<GuestPlan> = Vec::new();
        let mut i: usize = 0;
        while i < names.len()
            invariant
                names@ == guest_names(*self),
                names@.len() <= 17,
                sim.wf(),
                i <= names@.len(),
                guests@.len() == i,
                config_ok(*self),
                names@.len() >= 1,
                provisioner_id@ == keyed_name(*sim, self.provisioner@),
                provisioner_id@ == provisioner.id@,
                sim.nodes@.contains(*provisioner),
                crate::api::name_taken(sim.nodes@, self.provisioner@),
                named_node(*sim, self.provisioner@).spec.role == Role::Host,
                i > 0 ==> graph_fits(*sim) && graph_fault(*sim) is None,
                forall|x: int| 0 <= x < i ==> crate::api::name_taken(sim.nodes@, (#[trigger] names@[x])@)
                    && vm_node_ok(named_node(*sim, names@[x]@)) && guests@[x].node_id@ == keyed_name(*sim, names@[x]@),
                forall|x: int| 0 <= x < i ==> guest_planned(#[trigger] guests@[x], names@[x]@, x, *sim, self.vfio@),
                forall|x: int| 0 <= x < i ==> reachable(*sim, provisioner_id@, (#[trigger] guests@[x]).node_id@),
                forall|x: int, y: int| 0 <= x < i && 0 <= y < names@.len() ==> #[trigger] reachable(*sim,
                    guests@[x].node_id@, keyed_name(*sim, names@[y]@)),
            decreases names@.len() - i,
        {
            let node = match sim.node_named(names[i].as_str()) {
                Ok(n) => n,
                Err(e) => {
                    proof { assert(!crate::api::name_taken(sim.nodes@, guest_names(*self)[i as int]@)); }
                    return Err(e);
                },
            };
            proof {
                lemma_keyed_name(*sim, *node, names@[i as int]@);
                lemma_node_key(*sim, *node);
                lemma_node_key(*sim, *provisioner);
            }
            let res = node.spec.resources;
            if node.spec.role != Role::Host || res.cpu == 0 || res.cpu > 64 || res.memory < 512 || res.memory > 131072
                || res.storage < 8 || res.storage > 1024 {
                proof { assert(!vm_node_ok(named_node(*sim, guest_names(*self)[i as int]@))); }
                return Err(invalid("VM nodes need 1..=64 CPUs, 512..=131072 MiB RAM and 8..=1024 GiB disk"));
            }
            let links = match sim.route(provisioner_id.as_str(), node.id.as_str(), 0) {
                Ok(l) => l,
                Err(e) => {
                    proof {
                        lemma_reach_needs(*sim, provisioner_id@, node.id@);
                        assert(!(graph_fits(*sim) && graph_fault(*sim) is None
                            && reachable(*sim, keyed_name(*sim, self.provisioner@), keyed_name(*sim, guest_names(*self)[i as int]@))));
                    }
                    return Err(e);
                },
            };
            let mut j: usize = 0;
            while j < names.len()
                invariant
                    sim.wf(),
                    config_ok(*self),
                    j <= names@.len(),
                    forall|y: int| 0 <= y < j ==> #[trigger] reachable(*sim, node.id@, keyed_name(*sim, names@[y]@)),
                    names@ == guest_names(*self),
                    i < names@.len(),
                    node.id@ == keyed_name(*sim, names@[i as int]@),
                    sim.nodes@.contains(*node),
                decreases names@.len() - j,
            {
                let peer = match sim.node_named(names[j].as_str()) {
                    Ok(n) => n,
                    Err(e) => {
                        proof { assert(!crate::api::name_taken(sim.nodes@, guest_names(*self)[j as int]@)); }
                        return Err(e);
                    },
                };
                proof {
                    lemma_keyed_name(*sim, *peer, names@[j as int]@);
                    lemma_node_key(*sim, *node);
                    lemma_node_key(*sim, *peer);
                }
                let hops = match sim.route(node.id.as_str(), peer.id.as_str(), 0) {
                    Ok(h) => h,
                    Err(e) => {
                        proof {
                            lemma_reach_needs(*sim, node.id@, peer.id@);
                            assert(!(graph_fits(*sim) && graph_fault(*sim) is None
                                && reachable(*sim, keyed_name(*sim, guest_names(*self)[i as int]@),
                                keyed_name(*sim, guest_names(*self)[j as int]@))));
                        }
                        return Err(e);
                    },
                };
                proof {
                    assert(route_ok(*sim, node.id@, peer.id@, views(hops@)));
                    lemma_keyed_name(*sim, *peer, names@[j as int]@);
                }
                j += 1;
            }
            let ghost nd = *node;
            let g = GuestPlan {
                name: names[i].clone(),
                node_id: node.id.clone(),
                address: [10, 253, 0, (i + 1) as u8],
                cpus: res.cpu,
                memory_mib: res.memory,
                disk_gib: res.storage,
                vfio: vfio_for(&self.vfio, names[i].as_str()),
            };
            proof {
                assert(route_ok(*sim, provisioner_id@, node.id@, views(links@)));
                let k = choose|k: int| 0 <= k < sim.nodes@.len() && sim.nodes@[k] == nd;
                assert(sim.nodes@[k] == nd);
            }
            guests.push(g);
            i += 1;
        }
        let mut nodes: Vec<(String, [u8; 4])> = Vec::new();
        let mut k: usize = 1;
        while k < guests.len()
            invariant
                1 <= k,
            decreases guests@.len() - k,
        {
            nodes.push((guests[k].name.clone(), guests[k].address));
            k += 1;
        }
        let mut master: Vec<(String, [u8; 4])> = Vec::new();
        if guests.len() > 0 {
            master.push((guests[0].name.clone(), guests[0].address));
        }
        proof {
            assert forall|x: int, y: int| 0 <= x < names@.len() && 0 <= y < names@.len()
                implies reachable(*sim, (#[trigger] guests@[x]).node_id@, (#[trigger] guests@[y]).node_id@) by {
                assert(guest_planned(guests@[y], names@[y]@, y, *sim, self.vfio@));
                let k = choose|k: int| 0 <= k < sim.nodes@.len() && {
                    let n = #[trigger] sim.nodes@[k];
                    &&& n.spec.name@ == names@[y]@ && n.id@ == guests@[y].node_id@ && vm_node_ok(n)
                    &&& guests@[y].cpus == n.spec.resources.cpu && guests@[y].memory_mib == n.spec.resources.memory
                    &&& guests@[y].disk_gib == n.spec.resources.storage
                };
                lemma_keyed_name(*sim, sim.nodes@[k], names@[y]@);
                assert(reachable(*sim, guests@[x].node_id@, keyed_name(*sim, names@[y]@)));
            }
        }
        let plan = DeepOpsPlan {
            guests,
            provisioner_id,
            inventory: Inventory { master, nodes, login: self.controller.clone() },
            deepops_revision: deepops_commit(),
            nccl_revision: nccl_commit(),
            nccl_tests_revision: nccl_tests_commit(),
        };
        Ok(plan)
    }
}

/// The node named `name`.
pub open spec fn named_node(sim: Simulation, name: Seq<char>) -> Node {
    sim.nodes@[choose|k: int| 0 <= k < sim.nodes@.len() && (#[trigger] sim.nodes@[k]).spec.name@ == name]
}

/// A running simulation can carry the DeepOps guests: the provisioner is a host,
/// every guest is a host within the VM bounds, and routes join the provisioner to
/// every guest and every two guests.
pub open spec fn deepops_ready(c: DeepOpsConfig, sim: Simulation) -> bool {
    let names = guest_names(c);
    &&& graph_fits(sim) && graph_fault(sim) is None
    &&& crate::api::name_taken(sim.nodes@, c.provisioner@)
    &&& named_node(sim, c.provisioner@).spec.role == Role::Host
    &&& forall|i: int| 0 <= i < names.len() ==> crate::api::name_taken(sim.nodes@, (#[trigger] names[i])@)
        && vm_node_ok(named_node(sim, names[i]@))
    &&& forall|i: int| 0 <= i < names.len() ==> reachable(sim, keyed_name(sim, c.provisioner@), keyed_name(sim, (#[trigger] names[i])@))
    &&& forall|i: int, j: int| 0 <= i < names.len() && 0 <= j < names.len()
        ==> reachable(sim, keyed_name(sim, (#[trigger] names[i])@), keyed_name(sim, (#[trigger] names[j])@))
}

/// A route's ends are active.
proof fn lemma_reach_needs(sim: Simulation, x: Seq<char>, y: Seq<char>)
    ensures
        reachable(sim, x, y) ==> crate::topology::active_node(sim, x) && crate::topology::active_node(sim, y),
{
    if reachable(sim, x, y) {
        let l = choose|l: Seq<Seq<char>>| route_ok(sim, x, y, l);
        let p = choose|p: Seq<Seq<char>>| #[trigger] crate::topology::walk(sim, p, l) && p[0] == x && p.last() == y;
        assert(crate::topology::active_node(sim, p[0]));
        assert(crate::topology::active_node(sim, p[p.len() - 1]));
    }
}

/// A node of a simulation is found by its identifier.
proof fn lemma_node_key(sim: Simulation, n: Node)
    requires
        sim.nodes@.contains(n),
    ensures
        has_key(sim.nodes@, n.id@),
{
    let j = choose|j: int| 0 <= j < sim.nodes@.len() && sim.nodes@[j] == n;
    assert(sim.nodes@[j].key() == n.id@);
}

/// The identifier of the node named `name`.
pub open spec fn keyed_name(sim: Simulation, name: Seq<char>) -> Seq<char> {
    sim.nodes@[choose|k: int| 0 <= k < sim.nodes@.len() && (#[trigger] sim.nodes@[k]).spec.name@ == name].id@
}

/// In a well-formed simulation a node's name leads back to its identifier.
proof fn lemma_keyed_name(sim: Simulation, n: Node, name: Seq<char>)
    requires
        sim.wf(),
        sim.nodes@.contains(n),
        n.spec.name@ == name,
    ensures
        keyed_name(sim, name) == n.id@,
        named_node(sim, name) == n,
        crate::api::name_taken(sim.nodes@, name),
{
    let j = choose|j: int| 0 <= j < sim.nodes@.len() && sim.nodes@[j] == n;
    assert(sim.nodes@[j].spec.name@ == name);
    let k = choose|k: int| 0 <= k < sim.nodes@.len() && (#[trigger] sim.nodes@[k]).spec.name@ == name;
    assert(0 <= k < sim.nodes@.len() && sim.nodes@[k].spec.name@ == name);
    if k != j {
        assert(sim.nodes@[k].spec.name@ != sim.nodes@[j].spec.name@);
    }
}

/// Dotted decimal text of an IPv4 address.
pub open spec fn address_text(a: [u8; 4]) -> Seq<char> {
    ascii_chars(decimal(a[0] as nat) + seq![0x2eu8] + decimal(a[1] as nat) + seq![0x2eu8]
        + decimal(a[2] as nat) + seq![0x2eu8] + decimal(a[3] as nat))
}

pub fn address_string(a: [u8; 4]) -> (r: String)
    ensures
        r@ == address_text(a),
{
    let mut v: Vec<u8> = Vec::new();
    push_decimal(&mut v, a[0] as u64);
    v.push(0x2e);
    push_decimal(&mut v, a[1] as u64);
    v.push(0x2e);
    push_decimal(&mut v, a[2] as u64);
    v.push(0x2e);
    push_decimal(&mut v, a[3] as u64);
    proof {
        lemma_decimal_ascii(a[0] as nat);
        lemma_decimal_ascii(a[1] as nat);
        lemma_decimal_ascii(a[2] as nat);
        lemma_decimal_ascii(a[3] as nat);
        let w = decimal(a[0] as nat) + seq![0x2eu8] + decimal(a[1] as nat) + seq![0x2eu8]
            + decimal(a[2] as nat) + seq![0x2eu8] + decimal(a[3] as nat);
        assert(v@ =~= w);
        assert forall|i: int| 0 <= i < w.len() implies w[i] < 128 by {
            let l0 = decimal(a[0] as nat).len() as int;
            let l1 = decimal(a[1] as nat).len() as int;
            let l2 = decimal(a[2] as nat).len() as int;
            if i < l0 {
                assert(w[i] == decimal(a[0] as nat)[i]);
            } else if i == l0 {
            } else if i < l0 + 1 + l1 {
                assert(w[i] == decimal(a[1] as nat)[i - l0 - 1]);
            } else if i == l0 + 1 + l1 {
            } else if i < l0 + l1 + 2 + l2 {
                assert(w[i] == decimal(a[2] as nat)[i - l0 - l1 - 2]);
            } else if i == l0 + l1 + 2 + l2 {
            } else {
                assert(w[i] == decimal(a[3] as nat)[i - l0 - l1 - l2 - 3]);
            }
        }
    }
    ascii_string(v)
}

/// The `ansible_host` of the first host entry named `name`: `None` without an
/// entry, `Some(None)` when it has no text address.
pub open spec fn host_address(hosts: Seq<(String, Option<String>)>, name: Seq<char>) -> Option<Option<String>>
    decreases hosts.len(),
{
    if hosts.len() == 0 {
        None
    } else if hosts[0].0@ == name {
        Some(hosts[0].1)
    } else {
        host_address(hosts.drop_first(), name)
    }
}

fn host_lookup<'a>(hosts: &'a Vec<(String, Option<String>)>, name: &str) -> (r: Option<Option<&'a str>>)
    ensures
        r is None <==> host_address(hosts@, name@) is None,
        r matches Some(x) ==> (x is None <==> host_address(hosts@, name@)->0 is None),
        r matches Some(Some(t)) ==> t@ == host_address(hosts@, name@)->0->0@,
{
    let mut k: usize = 0;
    proof { assert(hosts@.subrange(0, hosts@.len() as int) =~= hosts@); }
    while k < hosts.len()
        invariant
            k <= hosts@.len(),
            host_address(hosts@, name@) == host_address(hosts@.subrange(k as int, hosts@.len() as int), name@),
        decreases hosts@.len() - k,
    {
        proof {
            let rest = hosts@.subrange(k as int, hosts@.len() as int);
            assert(rest.drop_first() =~= hosts@.subrange(k + 1, hosts@.len() as int));
            assert(rest[0] == hosts@[k as int]);
        }
        if str_eq(hosts[k].0.as_str(), name) {
            return Some(match &hosts[k].1 {
                Some(a) => Some(a.as_str()),
                None => None,
            });
        }
        k += 1;
    }
    None
}

/// The Ansible inventory names exactly the planned guests at their planned addresses.
pub open spec fn inventory_ok(hostvars: Option<Vec<(String, Option<String>)>>, guests: Seq<GuestPlan>) -> bool {
    &&& hostvars is Some
    &&& hostvars->0@.len() == guests.len()
    &&& forall|i: int| 0 <= i < guests.len() ==> (host_address(hostvars->0@, (#[trigger] guests[i]).name@)
        matches Some(Some(a)) && a@ == address_text(guests[i].address))
}

/// Checks the resolved inventory's host variables (host name and `ansible_host`)
/// against the plan; `None` when the inventory has no host variables.
pub fn validate_inventory(hostvars: &Option<Vec<(String, Option<String>)>>, guests: &Vec<GuestPlan>) -> (r: Result<()>)
    ensures
        r is Ok <==> inventory_ok(*hostvars, guests@),
        r is Err ==> r->Err_0 is Invalid,
{
    let hosts = match hostvars {
        Some(h) => h,
        None => return Err(invalid("Ansible inventory has no hostvars")),
    };
    if hosts.len() != guests.len() {
        return Err(invalid("Ansible inventory contains unintended hosts"));
    }
    let mut i: usize = 0;
    while i < guests.len()
        invariant
            *hostvars == Some(*hosts),
            hosts@.len() == guests@.len(),
            i <= guests@.len(),
            forall|x: int| 0 <= x < i ==> (host_address(hosts@, (#[trigger] guests@[x]).name@)
                matches Some(Some(a)) && a@ == address_text(guests@[x].address)),
        decreases guests@.len() - i,
    {
        let expected = address_string(guests[i].address);
        let ok = match host_lookup(hosts, guests[i].name.as_str()) {
            Some(Some(a)) => str_eq(a, expected.as_str()),
            _ => false,
        };
        if !ok {
            return Err(Error::Invalid("Ansible target mismatch".to_owned()));
        }
        i += 1;
    }
    Ok(())
}

/// One node of a Slurm check report.
#[derive(Clone, Debug)]
pub struct SlurmNode {
    pub name: Option<String>,
    pub gpus_configured: u64,
}

/// A Slurm check report: the JSON booleans as booleans, absent counts as zero.
#[derive(Clone, Debug)]
pub struct SlurmReport {
    pub ok: bool,
    pub gpu_job_ok: bool,
    pub gpu_job_ran: bool,
    pub nodes_unavailable: Option<i64>,
    pub gpus_configured: u64,
    pub nodes: Option<Vec<SlurmNode>>,
}

/// Node `n` carries the name `x`.
pub open spec fn named(n: SlurmNode, x: Seq<char>) -> bool {
    n.name matches Some(m) && m@ == x
}

/// Some node carries the name `x`.
pub open spec fn covered(nodes: Seq<SlurmNode>, x: Seq<char>) -> bool {
    exists|m: int| 0 <= m < nodes.len() && #[trigger] named(nodes[m], x)
}

/// The named nodes of a report are exactly the compute guests, as sets.
pub open spec fn same_names(nodes: Seq<SlurmNode>, compute: Seq<String>) -> bool {
    &&& forall|i: int| 0 <= i < compute.len() ==> covered(nodes, (#[trigger] compute[i])@)
    &&& forall|k: int| 0 <= k < nodes.len() && (#[trigger] nodes[k]).name is Some ==> names_in(compute, nodes[k].name->0@)
}

/// A GPU job ran and succeeded on every compute guest, each with GPUs configured.
pub open spec fn slurm_ok(r: SlurmReport, compute: Seq<String>) -> bool {
    &&& r.ok && r.gpu_job_ok && r.gpu_job_ran && r.nodes_unavailable == Some(0i64)
    &&& r.nodes is Some
    &&& same_names(r.nodes->0@, compute)
    &&& r.nodes->0@.len() == compute.len()
    &&& forall|k: int| 0 <= k < r.nodes->0@.len() ==> (#[trigger] r.nodes->0@[k]).gpus_configured > 0
    &&& r.gpus_configured >= compute.len()
}

fn slurm_failed() -> (e: Error)
    ensures
        e is State,
        e->State_0@ == "DeepOps GPU validation failed"@,
{
    Error::State("DeepOps GPU validation failed".to_owned())
}

pub fn validate_slurm(report: &SlurmReport, compute: &Vec<String>) -> (r: Result<()>)
    ensures
        r is Ok <==> slurm_ok(*report, compute@),
        r is Err ==> r->Err_0 is State,
{
    if !report.ok || !report.gpu_job_ok || !report.gpu_job_ran || report.nodes_unavailable != Some(0i64)
        || report.gpus_configured < compute.len() as u64 {
        return Err(slurm_failed());
    }
    let nodes = match &report.nodes {
        Some(n) => n,
        None => return Err(slurm_failed()),
    };
    if nodes.len() != compute.len() {
        return Err(slurm_failed());
    }
    let mut k: usize = 0;
    while k < nodes.len()
        invariant
            report.nodes == Some(*nodes),
            report.ok && report.gpu_job_ok && report.gpu_job_ran && report.nodes_unavailable == Some(0i64),
            report.gpus_configured >= compute@.len(),
            nodes@.len() == compute@.len(),
            k <= nodes@.len(),
            forall|x: int| 0 <= x < k ==> (#[trigger] nodes@[x]).gpus_configured > 0
                && (nodes@[x].name is Some ==> names_in(compute@, nodes@[x].name->0@)),
        decreases nodes@.len() - k,
    {
        if nodes[k].gpus_configured == 0 {
            return Err(slurm_failed());
        }
        if let Some(n) = &nodes[k].name {
            if !contains(compute, n.as_str()) {
                return Err(slurm_failed());
            }
        }
        k += 1;
    }
    let mut i: usize = 0;
    while i < compute.len()
        invariant
            report.nodes == Some(*nodes),
            report.ok && report.gpu_job_ok && report.gpu_job_ran && report.nodes_unavailable == Some(0i64),
            report.gpus_configured >= compute@.len(),
            nodes@.len() == compute@.len(),
            forall|x: int| 0 <= x < nodes@.len() ==> (#[trigger] nodes@[x]).gpus_configured > 0
                && (nodes@[x].name is Some ==> names_in(compute@, nodes@[x].name->0@)),
            i <= compute@.len(),
            forall|x: int| 0 <= x < i ==> covered(nodes@, (#[trigger] compute@[x])@),
        decreases compute@.len() - i,
    {
        let mut k: usize = 0;
        let mut found = false;
        while k < nodes.len()
            invariant
                report.nodes == Some(*nodes),
                i < compute@.len(),
                k <= nodes@.len(),
                forall|x: int| 0 <= x < i ==> covered(nodes@, (#[trigger] compute@[x])@),
                found ==> covered(nodes@, compute@[i as int]@),
                !found ==> forall|j: int| 0 <= j < k ==> !#[trigger] named(nodes@[j], compute@[i as int]@),
            decreases nodes@.len() - k,
        {
            if let Some(n) = &nodes[k].name {
                if str_eq(n.as_str(), compute[i].as_str()) {
                    found = true;
                    proof { assert(named(nodes@[k as int], compute@[i as int]@)); }
                }
            }
            k += 1;
        }
        if !found {
            proof {
                assert(forall|j: int| 0 <= j < nodes@.len() ==> !#[trigger] named(nodes@[j], compute@[i as int]@));
                assert(!covered(nodes@, compute@[i as int]@));
                assert(!same_names(nodes@, compute@));
            }
            return Err(slurm_failed());
        }
        i += 1;
    }
    Ok(())
}

/// The collectives nccl-tests reports are accepted for.
pub open spec fn collective_name(c: Seq<char>) -> bool {
    c == "all_reduce"@ || c == "all_gather"@ || c == "broadcast"@ || c == "reduce_scatter"@ || c == "reduce"@
        || c == "alltoall"@ || c == "alltoallv"@ || c == "scatter"@ || c == "gather"@ || c == "sendrecv"@
        || c == "hypercube"@
}

/// The collectives nccl-tests reports are accepted for, in order.
pub fn collectives() -> (r: Vec<String>)
    ensures
        forall|i: int| 0 <= i < r@.len() ==> collective_name((#[trigger] r@[i])@),
        r@.len() == 11,
{
    let mut v: Vec<String> = Vec::new();
    v.push("all_reduce".to_owned());
    v.push("all_gather".to_owned());
    v.push("broadcast".to_owned());
    v.push("reduce_scatter".to_owned());
    v.push("reduce".to_owned());
    v.push("alltoall".to_owned());
    v.push("alltoallv".to_owned());
    v.push("scatter".to_owned());
    v.push("gather".to_owned());
    v.push("sendrecv".to_owned());
    v.push("hypercube".to_owned());
    v
}

fn is_collective(c: &str) -> (r: bool)
    ensures
        r == collective_name(c@),
{
    str_eq(c, "all_reduce") || str_eq(c, "all_gather") || str_eq(c, "broadcast") || str_eq(c, "reduce_scatter")
        || str_eq(c, "reduce") || str_eq(c, "alltoall") || str_eq(c, "alltoallv") || str_eq(c, "scatter")
        || str_eq(c, "gather") || str_eq(c, "sendrecv") || str_eq(c, "hypercube")
}

/// One device entry of a report.
#[derive(Clone, Debug)]
pub struct NcclDevice {
    pub rank: Option<u64>,
    pub hostname: Option<String>,
    pub device_info: Option<String>,
}

/// One measurement of a row: absent (JSON `null`), or whether its count of wrong
/// elements is zero or missing (`null`), and whether it took a finite, non-negative time.
#[derive(Clone, Copy, Debug)]
pub struct NcclMeasure {
    pub present: bool,
    pub nwrong_zero: bool,
    pub nwrong_null: bool,
    pub time_ok: bool,
}

#[derive(Clone, Debug)]
pub struct NcclRow {
    pub redop: Option<String>,
    pub root: Option<String>,
    /// Bytes, zero when absent.
    pub size: u64,
    pub out_of_place: NcclMeasure,
    pub in_place: NcclMeasure,
}

/// An nccl-tests JSON report, with numbers as integers where they must be integers,
/// absent values as `None`, and string entries of arrays as `Some`.
#[derive(Clone, Debug)]
pub struct NcclReport {
    pub version: Option<i64>,
    pub nccl_version: Option<i64>,
    /// Zero when absent.
    pub validation: u64,
    pub ngpus: Option<i64>,
    pub nthreads: Option<i64>,
    pub oob_count: Option<i64>,
    pub oob_okay: Option<String>,
    pub end_time: Option<String>,
    pub args: Option<Vec<Option<String>>>,
    pub devices: Option<Vec<NcclDevice>>,
    pub env: Option<Vec<Option<String>>>,
    pub results: Option<Vec<NcclRow>>,
    pub errors: Option<Vec<Option<String>>>,
}

/// The report's header is that of a validated single-GPU-per-process run of the pinned NCCL.
pub open spec fn header_ok(r: NcclReport, collective: Seq<char>) -> bool {
    &&& collective_name(collective)
    &&& r.version == Some(4i64) && r.nccl_version == Some(23102i64) && r.validation != 0
    &&& r.ngpus == Some(1i64) && r.nthreads == Some(1i64) && r.oob_count == Some(0i64)
    &&& r.oob_okay matches Some(t) && t@ == "true"@
    &&& r.end_time matches Some(t) && t@.len() > 0
}

/// One device per compute guest: hosts and ranks as sets match, each device described.
pub open spec fn devices_match(d: Seq<NcclDevice>, compute: Seq<String>) -> bool {
    &&& d.len() == compute.len()
    &&& forall|k: int| 0 <= k < d.len() && (#[trigger] d[k]).hostname is Some ==> names_in(compute, d[k].hostname->0@)
    &&& forall|i: int| 0 <= i < compute.len() ==> has_host(d, (#[trigger] compute[i])@)
    &&& forall|k: int| 0 <= k < d.len() && (#[trigger] d[k]).rank is Some ==> d[k].rank->0 < compute.len()
    &&& forall|r: int| 0 <= r < compute.len() ==> #[trigger] has_rank(d, r)
    &&& forall|k: int| 0 <= k < d.len() ==> ((#[trigger] d[k]).device_info matches Some(t) && t@.len() > 0)
}

pub open spec fn has_host(d: Seq<NcclDevice>, x: Seq<char>) -> bool {
    exists|k: int| 0 <= k < d.len() && #[trigger] host_is(d[k], x)
}

pub open spec fn has_rank(d: Seq<NcclDevice>, r: int) -> bool {
    exists|k: int| 0 <= k < d.len() && #[trigger] rank_is(d[k], r)
}

pub open spec fn host_is(d: NcclDevice, x: Seq<char>) -> bool {
    d.hostname matches Some(h) && h@ == x
}

pub open spec fn rank_is(d: NcclDevice, r: int) -> bool {
    d.rank matches Some(x) && x == r
}

/// Every row has a measurement that counts, and every one that counts is correct
/// and timed.
pub open spec fn rows_checked(rows: Seq<NcclRow>, collective: Seq<char>) -> bool {
    &&& rows.len() > 0
    &&& exists|k: int| 0 <= k < rows.len() && (#[trigger] rows[k]).size > 0
    &&& forall|k: int| 0 <= k < rows.len() ==> measured(#[trigger] rows[k], collective)
}

/// Collectives whose in-place results carry no correctness count.
pub open spec fn in_place_unvalidated(c: Seq<char>) -> bool {
    c == "alltoall"@ || c == "alltoallv"@ || c == "sendrecv"@
}

/// A measurement counts when present, unless it may go without a correctness
/// count and has none.
pub open spec fn counts(m: NcclMeasure, may_skip: bool) -> bool {
    m.present && !(may_skip && m.nwrong_null)
}

pub open spec fn measure_ok(m: NcclMeasure, may_skip: bool) -> bool {
    counts(m, may_skip) ==> m.nwrong_zero && m.time_ok
}

pub open spec fn measured(row: NcclRow, collective: Seq<char>) -> bool {
    let skip = in_place_unvalidated(collective);
    &&& counts(row.out_of_place, false) || counts(row.in_place, skip)
    &&& measure_ok(row.out_of_place, false) && measure_ok(row.in_place, skip)
}

fn nccl_failed() -> (e: Error)
    ensures
        e is State,
        e->State_0@ == "invalid or unsuccessful nccl-tests report"@,
{
    Error::State("invalid or unsuccessful nccl-tests report".to_owned())
}

/// Whether `s` ends with `p`.
fn has_suffix(s: &str, p: &str) -> (r: bool)
    ensures
        r == (p@.len() <= s@.len() && s@.subrange(s@.len() - p@.len(), s@.len() as int) == p@),
{
    let n = s.unicode_len();
    let m = p.unicode_len();
    if m > n {
        return false;
    }
    let mut j: usize = 0;
    while j < m
        invariant
            n == s@.len(),
            m == p@.len(),
            m <= n,
            j <= m,
            forall|x: int| 0 <= x < j ==> s@[n - m + x] == p@[x],
        decreases m - j,
    {
        if s.get_char(n - m + j) != p.get_char(j) {
            assert(s@.subrange(n - m, n as int)[j as int] != p@[j as int]);
            return false;
        }
        j += 1;
    }
    assert(s@.subrange(n - m, n as int) =~= p@);
    true
}

/// `v` holds the string `x`.
pub open spec fn holds_text(v: Seq<Option<String>>, x: Seq<char>) -> bool {
    exists|k: int| 0 <= k < v.len() && #[trigger] is_text(v[k], x)
}

pub open spec fn is_text(o: Option<String>, x: Seq<char>) -> bool {
    o matches Some(t) && t@ == x
}

fn has_text(v: &Vec<Option<String>>, x: &str) -> (r: bool)
    ensures
        r == holds_text(v@, x@),
{
    let mut k: usize = 0;
    while k < v.len()
        invariant
            k <= v@.len(),
            forall|j: int| 0 <= j < k ==> !#[trigger] is_text(v@[j], x@),
        decreases v@.len() - k,
    {
        if let Some(t) = &v[k] {
            if str_eq(t.as_str(), x) {
                proof { assert(is_text(v@[k as int], x@)); }
                return true;
            }
        }
        k += 1;
    }
    false
}

fn same_opt_text(a: &Option<String>, b: &Option<String>) -> (r: bool)
    ensures
        r == (match (a, b) { (Some(x), Some(y)) => x@ == y@, (None, None) => true, _ => false }),
{
    match (a, b) {
        (Some(x), Some(y)) => str_eq(x.as_str(), y.as_str()),
        (None, None) => true,
        _ => false,
    }
}

/// The scale a size suffix stands for: `K`, `M` or `G` (either case) as powers
/// of 1024, anything else 1 (no suffix).
pub open spec fn size_scale(c: u8) -> int {
    if c == 0x4b || c == 0x6b {
        1024
    } else if c == 0x4d || c == 0x6d {
        1048576
    } else if c == 0x47 || c == 0x67 {
        1073741824
    } else {
        1
    }
}

/// The byte count a size field of at most 18 bytes spells: decimal digits with an
/// optional suffix, if the product fits in `u64`.
pub open spec fn size_value(b: Seq<u8>) -> Option<u64> {
    if b.len() == 0 || b.len() > 18 {
        None
    } else {
        let scale = size_scale(b[b.len() - 1]);
        let d = if scale == 1 { b } else { b.drop_last() };
        if d.len() > 0 && digit_text(d) && digits_value(d) * scale <= u64::MAX {
            Some((digits_value(d) * scale) as u64)
        } else {
            None
        }
    }
}

/// A byte count with an optional `K`, `M` or `G` suffix (powers of 1024).
fn parse_size(s: &str) -> (r: Option<u64>)
    ensures
        r == size_value(utf8(s@)),
{
    let b = bytes(s);
    if b.len() == 0 || b.len() > 18 {
        return None;
    }
    let last = b[b.len() - 1];
    let (digits, scale): (usize, u64) = if last == 0x4b || last == 0x6b {
        (b.len() - 1, 1024)
    } else if last == 0x4d || last == 0x6d {
        (b.len() - 1, 1024 * 1024)
    } else if last == 0x47 || last == 0x67 {
        (b.len() - 1, 1024 * 1024 * 1024)
    } else {
        (b.len(), 1)
    };
    let ghost d = b@.subrange(0, digits as int);
    proof {
        assert(scale == size_scale(last));
        if scale == 1 {
            assert(d =~= b@);
        } else {
            assert(d =~= b@.drop_last());
        }
    }
    if digits == 0 {
        return None;
    }
    let mut value: u64 = 0;
    let mut i: usize = 0;
    proof { assert(d.subrange(0, 0) =~= Seq::<u8>::empty()); }
    while i < digits
        invariant
            digits <= b@.len() <= 18,
            0 < digits,
            b@ == utf8(s@),
            d == b@.subrange(0, digits as int),
            scale == size_scale(b@[b@.len() - 1]),
            (scale == 1 ==> d == b@),
            (scale != 1 ==> d == b@.drop_last()),
            i <= digits,
            digit_text(d.subrange(0, i as int)),
            value == digits_value(d.subrange(0, i as int)),
        decreases digits - i,
    {
        let c = b[i];
        proof {
            assert(d[i as int] == c);
            assert(d.subrange(0, i + 1).drop_last() =~= d.subrange(0, i as int));
            assert(d.subrange(0, i + 1)[i as int] == c);
        }
        if c < 0x30 || c > 0x39 {
            proof { assert(!(0x30 <= d[i as int] <= 0x39)); }
            return None;
        }
        proof {
            assert forall|k: int| 0 <= k < i + 1 implies 0x30 <= #[trigger] d.subrange(0, i + 1)[k] <= 0x39 by {
                if k < i {
                    assert(d.subrange(0, i + 1)[k] == d.subrange(0, i as int)[k]);
                }
            }
        }
        value = match value.checked_mul(10) {
            Some(v) => match v.checked_add((c - 0x30) as u64) {
                Some(w) => w,
                None => {
                    proof { lemma_too_big(d, i + 1); }
                    return None;
                },
            },
            None => {
                proof {
                    lemma_digits_nonneg(d.subrange(0, i as int));
                    lemma_too_big(d, i + 1);
                }
                return None;
            },
        };
        i += 1;
    }
    proof {
        assert(d.subrange(0, i as int) =~= d);
        lemma_digits_nonneg(d);
    }
    value.checked_mul(scale)
}

/// ASCII space, tab, line feed or carriage return.
pub open spec fn ascii_space(c: u8) -> bool {
    c == 0x20 || c == 0x09 || c == 0x0a || c == 0x0d
}

pub open spec fn trim_front(b: Seq<u8>) -> Seq<u8>
    decreases b.len(),
{
    if b.len() > 0 && ascii_space(b[0]) { trim_front(b.drop_first()) } else { b }
}

pub open spec fn trim_back(b: Seq<u8>) -> Seq<u8>
    decreases b.len(),
{
    if b.len() > 0 && ascii_space(b[b.len() - 1]) { trim_back(b.drop_last()) } else { b }
}

/// Only decimal digits.
pub open spec fn digit_text(b: Seq<u8>) -> bool {
    forall|i: int| 0 <= i < b.len() ==> 0x30 <= #[trigger] b[i] <= 0x39
}

/// The number decimal digits spell.
pub open spec fn digits_value(b: Seq<u8>) -> int
    decreases b.len(),
{
    if b.len() == 0 { 0 } else { digits_value(b.drop_last()) * 10 + (b[b.len() - 1] - 0x30) }
}

/// The digits of a root: trimmed, without one leading `+`.
pub open spec fn root_digits(b: Seq<u8>) -> Seq<u8> {
    let t = trim_back(trim_front(b));
    if t.len() > 0 && t[0] == 0x2b { t.drop_first() } else { t }
}

/// The number a root field holds, if it is one that fits in `u64`.
pub open spec fn root_value(b: Seq<u8>) -> Option<u64> {
    let d = root_digits(b);
    if d.len() > 0 && digit_text(d) && digits_value(d) <= u64::MAX { Some(digits_value(d) as u64) } else { None }
}

proof fn lemma_digits_grow(d: Seq<u8>, k: int)
    requires
        digit_text(d),
        0 <= k <= d.len(),
    ensures
        digits_value(d.subrange(0, k)) <= digits_value(d),
        0 <= digits_value(d.subrange(0, k)),
    decreases d.len() - k,
{
    if k < d.len() {
        lemma_digits_grow(d, k + 1);
        assert(d.subrange(0, k + 1).drop_last() =~= d.subrange(0, k));
        assert(d.subrange(0, k + 1)[k] == d[k]);
    } else {
        assert(d.subrange(0, k) =~= d);
    }
    lemma_digits_nonneg(d.subrange(0, k));
}

proof fn lemma_digits_nonneg(d: Seq<u8>)
    requires
        digit_text(d),
    ensures
        0 <= digits_value(d),
    decreases d.len(),
{
    if d.len() > 0 {
        assert(digit_text(d.drop_last()));
        lemma_digits_nonneg(d.drop_last());
    }
}

/// A decimal number after trimming ASCII white space, with an optional `+`.
fn parse_root(s: &str) -> (r: Option<u64>)
    ensures
        r == root_value(utf8(s@)),
{
    let b = bytes(s);
    let n = b.len();
    let mut start: usize = 0;
    let mut end: usize = b.len();
    proof { assert(b@.subrange(0, n as int) =~= b@); }
    while start < end && (b[start] == 0x20 || b[start] == 0x09 || b[start] == 0x0a || b[start] == 0x0d)
        invariant
            n == b@.len(),
            end == n,
            start <= end,
            trim_front(b@) == trim_front(b@.subrange(start as int, n as int)),
        decreases end - start,
    {
        proof {
            assert(b@.subrange(start as int, n as int).drop_first() =~= b@.subrange(start + 1, n as int));
        }
        start += 1;
    }
    proof {
        assert(trim_front(b@) == b@.subrange(start as int, n as int));
        assert(b@.subrange(start as int, n as int) =~= b@.subrange(start as int, end as int));
    }
    while end > start && (b[end - 1] == 0x20 || b[end - 1] == 0x09 || b[end - 1] == 0x0a || b[end - 1] == 0x0d)
        invariant
            n == b@.len(),
            start <= end <= n,
            trim_back(trim_front(b@)) == trim_back(b@.subrange(start as int, end as int)),
        decreases end - start,
    {
        proof {
            assert(b@.subrange(start as int, end as int).drop_last() =~= b@.subrange(start as int, end - 1));
        }
        end -= 1;
    }
    proof { assert(trim_back(trim_front(b@)) == b@.subrange(start as int, end as int)); }
    let ghost t = b@.subrange(start as int, end as int);
    if start < end && b[start] == 0x2b {
        proof { assert(t.drop_first() =~= b@.subrange(start + 1, end as int)); }
        start += 1;
    }
    let ghost d = b@.subrange(start as int, end as int);
    assert(d == root_digits(b@));
    if start == end {
        proof { assert(d.len() == 0); }
        return None;
    }
    let mut value: u64 = 0;
    let mut i: usize = start;
    proof { assert(d.subrange(0, 0) =~= Seq::<u8>::empty()); }
    while i < end
        invariant
            n == b@.len(),
            start <= i <= end <= n,
            d == b@.subrange(start as int, end as int),
            d == root_digits(b@),
            b@ == utf8(s@),
            d.len() > 0,
            digit_text(d.subrange(0, i - start)),
            value == digits_value(d.subrange(0, i - start)),
        decreases end - i,
    {
        let c = b[i];
        proof {
            assert(d[i - start] == c);
            assert(d.subrange(0, i + 1 - start).drop_last() =~= d.subrange(0, i - start));
            assert(d.subrange(0, i + 1 - start)[i - start] == c);
        }
        if c < 0x30 || c > 0x39 {
            proof { assert(!(0x30 <= d[i - start] <= 0x39)); }
            return None;
        }
        proof {
            assert forall|k: int| 0 <= k < i + 1 - start implies 0x30 <= #[trigger] d.subrange(0, i + 1 - start)[k] <= 0x39 by {
                if k < i - start {
                    assert(d.subrange(0, i + 1 - start)[k] == d.subrange(0, i - start)[k]);
                }
            }
        }
        value = match value.checked_mul(10) {
            Some(v) => match v.checked_add((c - 0x30) as u64) {
                Some(w) => w,
                None => {
                    proof { lemma_too_big(d, i + 1 - start); }
                    return None;
                },
            },
            None => {
                proof {
                    lemma_digits_nonneg(d.subrange(0, i - start));
                    lemma_too_big(d, i + 1 - start);
                }
                return None;
            },
        };
        i += 1;
    }
    proof { assert(d.subrange(0, i - start) =~= d); }
    Some(value)
}

/// A prefix past `u64` makes the whole number past it, or the text not all digits.
proof fn lemma_too_big(d: Seq<u8>, k: int)
    requires
        0 < k <= d.len(),
        digit_text(d.subrange(0, k)),
        digits_value(d.subrange(0, k)) > u64::MAX,
    ensures
        !(digit_text(d) && digits_value(d) <= u64::MAX),
{
    if digit_text(d) {
        lemma_digits_grow(d, k);
    }
}

/// The value after the last `flag` among the first `k` places of the argument list
/// (a flag counts where it and the next place both hold text).
pub open spec fn last_value(args: Seq<Option<String>>, flag: Seq<char>, k: int) -> Option<Seq<char>>
    decreases k,
{
    if k <= 0 {
        None
    } else {
        let i = k - 1;
        if i + 1 < args.len() && args[i] is Some && args[i + 1] is Some && args[i]->0@ == flag {
            Some(args[i + 1]->0@)
        } else {
            last_value(args, flag, i)
        }
    }
}

/// The size the last `flag` of the list gives.
pub open spec fn flag_size(args: Seq<Option<String>>, flag: Seq<char>) -> Option<u64> {
    match last_value(args, flag, args.len() as int) {
        Some(v) => size_value(utf8(v)),
        None => None,
    }
}

/// The number the last `flag` of the list gives.
pub open spec fn flag_number(args: Seq<Option<String>>, flag: Seq<char>) -> Option<u64> {
    match last_value(args, flag, args.len() as int) {
        Some(v) => root_value(utf8(v)),
        None => None,
    }
}

/// `v` is the run `b, b*f, b*f*f, ...` of sizes up to `e`, at most 64 of them.
pub open spec fn size_run(b: u64, e: u64, f: u64, v: Seq<u64>) -> bool {
    &&& 1 <= v.len() <= 64
    &&& v[0] == b
    &&& forall|i: int| 0 <= i < v.len() - 1 ==> #[trigger] v[i + 1] == v[i] * f
    &&& forall|i: int| 0 <= i < v.len() ==> #[trigger] v[i] <= e
    &&& (v.len() == 64 || v[v.len() - 1] * f > e)
}

/// The run of sizes that the flags of the list ask for, if they ask for one.
pub open spec fn sizes_asked(args: Seq<Option<String>>) -> bool {
    match (flag_size(args, "-b"@), flag_size(args, "-e"@), flag_number(args, "-f"@)) {
        (Some(b), Some(e), Some(f)) => b != 0 && f >= 2 && b <= e,
        _ => false,
    }
}

/// The message sizes an argument list asks for: `-b` up to `-e` by factor `-f`.
fn requested_sizes(args: &Vec<Option<String>>) -> (r: Option<Vec<u64>>)
    ensures
        r is Some <==> sizes_asked(args@),
        r is Some ==> size_run(
            flag_size(args@, "-b"@)->0,
            flag_size(args@, "-e"@)->0,
            flag_number(args@, "-f"@)->0,
            r->0@,
        ),
{
    proof {
        reveal_strlit("-b");
        reveal_strlit("-e");
        reveal_strlit("-f");
        assert("-b"@[1] != "-e"@[1]);
        assert("-b"@[1] != "-f"@[1]);
        assert("-e"@[1] != "-f"@[1]);
    }
    let mut first: Option<u64> = None;
    let mut last: Option<u64> = None;
    let mut factor: Option<u64> = None;
    let mut k: usize = 0;
    while k < args.len()
        invariant
            k <= args@.len(),
            first == match last_value(args@, "-b"@, k as int) {
                Some(v) => size_value(utf8(v)),
                None => None,
            },
            last == match last_value(args@, "-e"@, k as int) {
                Some(v) => size_value(utf8(v)),
                None => None,
            },
            factor == match last_value(args@, "-f"@, k as int) {
                Some(v) => root_value(utf8(v)),
                None => None,
            },
            "-b"@ != "-e"@,
            "-b"@ != "-f"@,
            "-e"@ != "-f"@,
        decreases args@.len() - k,
    {
        if k + 1 < args.len() {
            if let (Some(flag), Some(value)) = (&args[k], &args[k + 1]) {
                if str_eq(flag.as_str(), "-b") {
                    first = parse_size(value.as_str());
                } else if str_eq(flag.as_str(), "-e") {
                    last = parse_size(value.as_str());
                } else if str_eq(flag.as_str(), "-f") {
                    factor = parse_root(value.as_str());
                }
            }
        }
        k += 1;
    }
    let (b, e, f) = match (first, last, factor) {
        (Some(b), Some(e), Some(f)) => (b, e, f),
        _ => return None,
    };
    if b == 0 || f < 2 || b > e {
        return None;
    }
    let mut sizes: Vec<u64> = Vec::new();
    let mut s = b;
    let mut go = true;
    while go && s <= e && sizes.len() < 64
        invariant
            sizes@.len() <= 64,
            sizes@.len() == 0 ==> s == b && go,
            sizes@.len() > 0 ==> sizes@[0] == b,
            forall|i: int| 0 <= i < sizes@.len() - 1 ==> #[trigger] sizes@[i + 1] == sizes@[i] * f,
            forall|i: int| 0 <= i < sizes@.len() ==> #[trigger] sizes@[i] <= e,
            go && sizes@.len() > 0 ==> s == sizes@[sizes@.len() - 1] * f,
            !go ==> sizes@.len() > 0 && sizes@[sizes@.len() - 1] * f > u64::MAX,
        decreases 64 - sizes@.len(),
    {
        sizes.push(s);
        match s.checked_mul(f) {
            Some(t) => {
                s = t;
            },
            None => {
                go = false;
            },
        }
    }
    Some(sizes)
}

/// Two optional texts are the same: both absent, or both present and equal.
pub open spec fn same_text(a: Option<String>, b: Option<String>) -> bool {
    match (a, b) {
        (Some(x), Some(y)) => x@ == y@,
        (None, None) => true,
        _ => false,
    }
}

/// The `redop` field of each row.
pub open spec fn ops_of(rows: Seq<NcclRow>) -> Seq<Option<String>> {
    rows.map_values(|w: NcclRow| w.redop)
}

/// The `root` field of each row.
pub open spec fn roots_of(rows: Seq<NcclRow>) -> Seq<Option<String>> {
    rows.map_values(|w: NcclRow| w.root)
}

/// No key before place `i` is the same as the key at `i`.
pub open spec fn first_seen(keys: Seq<Option<String>>, i: int) -> bool {
    forall|j: int| 0 <= j < i ==> !same_text(#[trigger] keys[j], keys[i])
}

/// How many different keys the first `i` places hold.
pub open spec fn distinct_count(keys: Seq<Option<String>>, i: int) -> nat
    decreases i,
{
    if i <= 0 {
        0
    } else {
        distinct_count(keys, i - 1) + if first_seen(keys, i - 1) { 1nat } else { 0nat }
    }
}

proof fn lemma_distinct_positive(keys: Seq<Option<String>>, i: int)
    requires
        1 <= i,
    ensures
        1 <= distinct_count(keys, i),
    decreases i,
{
    if i > 1 {
        lemma_distinct_positive(keys, i - 1);
    }
}

fn count_distinct_ops(rows: &Vec<NcclRow>) -> (r: usize)
    ensures
        r == distinct_count(ops_of(rows@), rows@.len() as int),
{
    let ghost ks = ops_of(rows@);
    let mut n: usize = 0;
    let mut i: usize = 0;
    while i < rows.len()
        invariant
            i <= rows@.len(),
            ks == ops_of(rows@),
            n <= i,
            n == distinct_count(ks, i as int),
        decreases rows@.len() - i,
    {
        let mut fresh = true;
        let mut j: usize = 0;
        while j < i
            invariant
                i < rows@.len(),
                j <= i,
                ks == ops_of(rows@),
                fresh == forall|q: int| 0 <= q < j ==> !same_text(#[trigger] ks[q], ks[i as int]),
            decreases i - j,
        {
            proof {
                assert(ks[j as int] == rows@[j as int].redop);
                assert(ks[i as int] == rows@[i as int].redop);
            }
            if same_opt_text(&rows[j].redop, &rows[i].redop) {
                fresh = false;
            }
            j += 1;
        }
        proof { assert(fresh == first_seen(ks, i as int)); }
        if fresh {
            n += 1;
        }
        i += 1;
    }
    n
}

fn count_distinct_roots(rows: &Vec<NcclRow>) -> (r: usize)
    ensures
        r == distinct_count(roots_of(rows@), rows@.len() as int),
{
    let ghost ks = roots_of(rows@);
    let mut n: usize = 0;
    let mut i: usize = 0;
    while i < rows.len()
        invariant
            i <= rows@.len(),
            ks == roots_of(rows@),
            n <= i,
            n == distinct_count(ks, i as int),
        decreases rows@.len() - i,
    {
        let mut fresh = true;
        let mut j: usize = 0;
        while j < i
            invariant
                i < rows@.len(),
                j <= i,
                ks == roots_of(rows@),
                fresh == forall|q: int| 0 <= q < j ==> !same_text(#[trigger] ks[q], ks[i as int]),
            decreases i - j,
        {
            proof {
                assert(ks[j as int] == rows@[j as int].root);
                assert(ks[i as int] == rows@[i as int].root);
            }
            if same_opt_text(&rows[j].root, &rows[i].root) {
                fresh = false;
            }
            j += 1;
        }
        proof { assert(fresh == first_seen(ks, i as int)); }
        if fresh {
            n += 1;
        }
        i += 1;
    }
    n
}

/// Two rows fall in one cell of the grid: same size, operation and root.
pub open spec fn same_cell(a: NcclRow, b: NcclRow) -> bool {
    a.size == b.size && same_text(a.redop, b.redop) && same_text(a.root, b.root)
}

/// The rows are exactly the grid of requested sizes, operations and roots: every
/// row of a requested size, no cell twice, and as many rows as cells.
pub open spec fn grid_ok(rows: Seq<NcclRow>, sizes: Seq<u64>) -> bool {
    &&& forall|i: int| 0 <= i < rows.len() ==> sizes.contains(#[trigger] rows[i].size)
    &&& forall|i: int, j: int| 0 <= j < i < rows.len() ==> !same_cell(#[trigger] rows[j], #[trigger] rows[i])
    &&& rows.len() == sizes.len() * distinct_count(ops_of(rows), rows.len() as int) * distinct_count(
        roots_of(rows),
        rows.len() as int,
    )
}

fn grid_complete(rows: &Vec<NcclRow>, sizes: &Vec<u64>) -> (r: bool)
    ensures
        r == grid_ok(rows@, sizes@),
{
    let mut i: usize = 0;
    while i < rows.len()
        invariant
            i <= rows@.len(),
            forall|q: int| 0 <= q < i ==> sizes@.contains(#[trigger] rows@[q].size),
            forall|q: int, j: int| 0 <= j < q < i ==> !same_cell(#[trigger] rows@[j], #[trigger] rows@[q]),
        decreases rows@.len() - i,
    {
        let mut known = false;
        let mut k: usize = 0;
        while k < sizes.len()
            invariant
                i < rows@.len(),
                k <= sizes@.len(),
                known == exists|q: int| 0 <= q < k && sizes@[q] == rows@[i as int].size,
            decreases sizes@.len() - k,
        {
            if sizes[k] == rows[i].size {
                known = true;
            }
            k += 1;
        }
        if !known {
            proof {
                assert(!sizes@.contains(rows@[i as int].size));
            }
            return false;
        }
        let mut j: usize = 0;
        while j < i
            invariant
                i < rows@.len(),
                j <= i,
                forall|q: int| 0 <= q < j ==> !same_cell(#[trigger] rows@[q], rows@[i as int]),
            decreases i - j,
        {
            if rows[j].size == rows[i].size && same_opt_text(&rows[j].redop, &rows[i].redop)
                && same_opt_text(&rows[j].root, &rows[i].root) {
                proof { assert(same_cell(rows@[j as int], rows@[i as int])); }
                return false;
            }
            j += 1;
        }
        i += 1;
    }
    let ops = count_distinct_ops(rows) as u128;
    let roots = count_distinct_roots(rows) as u128;
    let ghost total: int = sizes@.len() * ops * roots;
    proof {
        assert(total == sizes@.len() * distinct_count(ops_of(rows@), rows@.len() as int) * distinct_count(
            roots_of(rows@),
            rows@.len() as int,
        ));
    }
    match (sizes.len() as u128).checked_mul(ops) {
        Some(x) => match x.checked_mul(roots) {
            Some(cells) => {
                assert(cells == total);
                rows.len() as u128 == cells
            },
            None => {
                proof {
                    assert(x * roots > u128::MAX);
                    assert(total > rows@.len());
                }
                false
            },
        },
        None => {
            proof {
                if rows@.len() > 0 {
                    lemma_distinct_positive(roots_of(rows@), rows@.len() as int);
                    let a: int = sizes@.len() * ops;
                    assert(a * roots >= a) by (nonlinear_arith)
                        requires
                            a >= 0,
                            roots >= 1,
                    ;
                    assert(total > rows@.len());
                } else {
                    assert(ops == 0);
                    let z: int = sizes@.len() as int;
                    assert(z * ops == 0) by (nonlinear_arith)
                        requires
                            ops == 0,
                    ;
                }
            }
            false
        },
    }
}


/// `s` ends with `p`.
pub open spec fn ends_with(s: Seq<char>, p: Seq<char>) -> bool {
    p.len() <= s.len() && s.subrange(s.len() - p.len(), s.len() as int) == p
}

/// The path suffix of the test binary for `collective`.
pub open spec fn perf_path(collective: Seq<char>) -> Seq<char> {
    "/"@ + collective + "_perf"@
}

/// The first argument names the test binary of `collective`.
pub open spec fn first_arg_ok(args: Seq<Option<String>>, collective: Seq<char>) -> bool {
    args.len() > 0 && match args[0] {
        Some(s) => ends_with(s@, perf_path(collective)),
        None => false,
    }
}

/// The environment pins NCCL and Open MPI to the simulated socket fabric.
pub open spec fn env_ok(env: Seq<Option<String>>) -> bool {
    &&& holds_text(env, "NCCL_NET=Socket"@)
    &&& holds_text(env, "NCCL_NET_PLUGIN=none"@)
    &&& holds_text(env, "NCCL_SOCKET_IFNAME==simnccl"@)
    &&& holds_text(env, "NCCL_IB_DISABLE=1"@)
    &&& holds_text(env, "NCCL_P2P_DISABLE=1"@)
    &&& holds_text(env, "NCCL_SHM_DISABLE=1"@)
    &&& holds_text(env, "OMPI_MCA_btl_tcp_if_include=simnccl"@)
    &&& holds_text(env, "OMPI_MCA_oob_tcp_if_include=simnccl"@)
}

/// Collectives that reduce, and so must cover every reduction operation.
pub open spec fn reducing(c: Seq<char>) -> bool {
    c == "all_reduce"@ || c == "reduce"@ || c == "reduce_scatter"@
}

/// Collectives with a root, which must cover every rank as root.
pub open spec fn rooted(c: Seq<char>) -> bool {
    c == "broadcast"@ || c == "reduce"@ || c == "scatter"@ || c == "gather"@
}

pub open spec fn op_is(row: NcclRow, x: Seq<char>) -> bool {
    match row.redop {
        Some(t) => t@ == x,
        None => false,
    }
}

pub open spec fn has_op(rows: Seq<NcclRow>, x: Seq<char>) -> bool {
    exists|k: int| 0 <= k < rows.len() && #[trigger] op_is(rows[k], x)
}

/// Every reduction operation appears in some row.
pub open spec fn ops_ok(rows: Seq<NcclRow>) -> bool {
    &&& has_op(rows, "sum"@)
    &&& has_op(rows, "prod"@)
    &&& has_op(rows, "min"@)
    &&& has_op(rows, "max"@)
    &&& has_op(rows, "avg"@)
    &&& has_op(rows, "mulsum"@)
}

pub open spec fn empty_text(o: Option<String>) -> bool {
    match o {
        Some(t) => t@.len() == 0,
        None => false,
    }
}

/// Every error entry is the empty string.
pub open spec fn errors_clean(e: Seq<Option<String>>) -> bool {
    forall|k: int| 0 <= k < e.len() ==> #[trigger] empty_text(e[k])
}

pub open spec fn args_accepted(a: Option<Vec<Option<String>>>, collective: Seq<char>) -> bool {
    match a {
        Some(a) => first_arg_ok(a@, collective),
        None => false,
    }
}

pub open spec fn devices_accepted(d: Option<Vec<NcclDevice>>, compute: Seq<String>) -> bool {
    match d {
        Some(d) => devices_match(d@, compute),
        None => false,
    }
}

pub open spec fn env_accepted(e: Option<Vec<Option<String>>>) -> bool {
    match e {
        Some(e) => env_ok(e@),
        None => false,
    }
}

pub open spec fn results_accepted(rows: Option<Vec<NcclRow>>, collective: Seq<char>) -> bool {
    match rows {
        Some(rows) => rows_checked(rows@, collective) && (reducing(collective) ==> ops_ok(rows@)),
        None => false,
    }
}

pub open spec fn errors_accepted(e: Option<Vec<Option<String>>>) -> bool {
    match e {
        Some(e) => errors_clean(e@),
        None => false,
    }
}

/// The rows are the test matrix the arguments ask for: every root rank for a rooted
/// collective, and each cell of sizes × operations × roots exactly once.
pub open spec fn matrix_accepted(r: NcclReport, collective: Seq<char>, compute: Seq<String>) -> bool {
    match (r.args, r.results) {
        (Some(a), Some(rows)) => {
            &&& rooted(collective) ==> roots_are_ranks(rows@, compute.len() as int)
            &&& sizes_asked(a@)
            &&& exists|v: Seq<u64>| #[trigger] size_run(
                flag_size(a@, "-b"@)->0,
                flag_size(a@, "-e"@)->0,
                flag_number(a@, "-f"@)->0,
                v,
            ) && grid_ok(rows@, v)
        },
        _ => false,
    }
}

/// Exactly the reports `validate_nccl` accepts.
pub open spec fn nccl_accepted(r: NcclReport, collective: Seq<char>, compute: Seq<String>) -> bool {
    &&& header_ok(r, collective)
    &&& args_accepted(r.args, collective)
    &&& devices_accepted(r.devices, compute)
    &&& env_accepted(r.env)
    &&& results_accepted(r.results, collective)
    &&& matrix_accepted(r, collective, compute)
    &&& errors_accepted(r.errors)
}

proof fn lemma_run_prefix(b: u64, e: u64, f: u64, v: Seq<u64>, w: Seq<u64>, i: int)
    requires
        size_run(b, e, f, v),
        size_run(b, e, f, w),
        0 <= i < v.len(),
        i < w.len(),
    ensures
        v[i] == w[i],
    decreases i,
{
    if i > 0 {
        let j = i - 1;
        lemma_run_prefix(b, e, f, v, w, j);
        assert(v[j + 1] == v[j] * f);
        assert(w[j + 1] == w[j] * f);
    }
}

/// The arguments fix the run of sizes: two runs from the same flags are one.
proof fn lemma_run_unique(b: u64, e: u64, f: u64, v: Seq<u64>, w: Seq<u64>)
    requires
        size_run(b, e, f, v),
        size_run(b, e, f, w),
    ensures
        v == w,
{
    if v.len() < w.len() {
        let k = v.len() - 1;
        lemma_run_prefix(b, e, f, v, w, k);
        assert(w[k + 1] == w[k] * f);
        assert(w[k + 1] <= e);
    }
    if w.len() < v.len() {
        let k = w.len() - 1;
        lemma_run_prefix(b, e, f, v, w, k);
        assert(v[k + 1] == v[k] * f);
        assert(v[k + 1] <= e);
    }
    assert forall|i: int| 0 <= i < v.len() implies v[i] == w[i] by {
        lemma_run_prefix(b, e, f, v, w, i);
    }
    assert(v =~= w);
}

fn header_checked(r: &NcclReport, collective: &str) -> (b: bool)
    ensures
        b == header_ok(*r, collective@),
{
    if !is_collective(collective) || r.version != Some(4i64) || r.nccl_version != Some(23102i64)
        || r.validation == 0 || r.ngpus != Some(1i64) || r.nthreads != Some(1i64) || r.oob_count != Some(0i64) {
        return false;
    }
    let okay = match &r.oob_okay {
        Some(t) => str_eq(t.as_str(), "true"),
        None => false,
    };
    let ended = match &r.end_time {
        Some(t) => t.as_str().unicode_len() > 0,
        None => false,
    };
    okay && ended
}

fn any_host(d: &Vec<NcclDevice>, x: &str) -> (r: bool)
    ensures
        r == has_host(d@, x@),
{
    let mut k: usize = 0;
    while k < d.len()
        invariant
            k <= d@.len(),
            forall|j: int| 0 <= j < k ==> !#[trigger] host_is(d@[j], x@),
        decreases d@.len() - k,
    {
        if let Some(h) = &d[k].hostname {
            if str_eq(h.as_str(), x) {
                proof { assert(host_is(d@[k as int], x@)); }
                return true;
            }
        }
        k += 1;
    }
    false
}

fn any_rank(d: &Vec<NcclDevice>, r: u64) -> (b: bool)
    ensures
        b == has_rank(d@, r as int),
{
    let mut k: usize = 0;
    while k < d.len()
        invariant
            k <= d@.len(),
            forall|j: int| 0 <= j < k ==> !#[trigger] rank_is(d@[j], r as int),
        decreases d@.len() - k,
    {
        if d[k].rank == Some(r) {
            proof { assert(rank_is(d@[k as int], r as int)); }
            return true;
        }
        k += 1;
    }
    false
}

fn devices_checked(d: &Vec<NcclDevice>, compute: &Vec<String>) -> (r: bool)
    ensures
        r == devices_match(d@, compute@),
{
    if d.len() != compute.len() {
        return false;
    }
    let n = d.len();
    let mut k: usize = 0;
    while k < n
        invariant
            n == d@.len(),
            n == compute@.len(),
            k <= n,
            forall|j: int| 0 <= j < k && (#[trigger] d@[j]).hostname is Some ==> names_in(compute@, d@[j].hostname->0@),
            forall|j: int| 0 <= j < k && (#[trigger] d@[j]).rank is Some ==> d@[j].rank->0 < n,
            forall|j: int| 0 <= j < k ==> ((#[trigger] d@[j]).device_info matches Some(t) && t@.len() > 0),
        decreases n - k,
    {
        let dev = &d[k];
        if let Some(h) = &dev.hostname {
            if !contains(compute, h.as_str()) {
                proof { assert(!names_in(compute@, d@[k as int].hostname->0@)); }
                return false;
            }
        }
        if let Some(r) = dev.rank {
            if r >= n as u64 {
                return false;
            }
        }
        let described = match &dev.device_info {
            Some(t) => t.as_str().unicode_len() > 0,
            None => false,
        };
        if !described {
            return false;
        }
        k += 1;
    }
    let mut i: usize = 0;
    while i < n
        invariant
            n == d@.len(),
            n == compute@.len(),
            i <= n,
            forall|x: int| 0 <= x < i ==> has_host(d@, (#[trigger] compute@[x])@),
        decreases n - i,
    {
        if !any_host(d, compute[i].as_str()) {
            return false;
        }
        i += 1;
    }
    let mut r: usize = 0;
    while r < n
        invariant
            n == d@.len(),
            n == compute@.len(),
            r <= n,
            forall|x: int| 0 <= x < r ==> #[trigger] has_rank(d@, x),
        decreases n - r,
    {
        if !any_rank(d, r as u64) {
            return false;
        }
        r += 1;
    }
    true
}

fn env_checked(env: &Vec<Option<String>>) -> (r: bool)
    ensures
        r == env_ok(env@),
{
    has_text(env, "NCCL_NET=Socket") && has_text(env, "NCCL_NET_PLUGIN=none")
        && has_text(env, "NCCL_SOCKET_IFNAME==simnccl") && has_text(env, "NCCL_IB_DISABLE=1")
        && has_text(env, "NCCL_P2P_DISABLE=1") && has_text(env, "NCCL_SHM_DISABLE=1")
        && has_text(env, "OMPI_MCA_btl_tcp_if_include=simnccl")
        && has_text(env, "OMPI_MCA_oob_tcp_if_include=simnccl")
}

fn any_op(rows: &Vec<NcclRow>, x: &str) -> (r: bool)
    ensures
        r == has_op(rows@, x@),
{
    let mut k: usize = 0;
    while k < rows.len()
        invariant
            k <= rows@.len(),
            forall|j: int| 0 <= j < k ==> !#[trigger] op_is(rows@[j], x@),
        decreases rows@.len() - k,
    {
        if let Some(t) = &rows[k].redop {
            if str_eq(t.as_str(), x) {
                proof { assert(op_is(rows@[k as int], x@)); }
                return true;
            }
        }
        k += 1;
    }
    false
}

fn ops_checked(rows: &Vec<NcclRow>) -> (r: bool)
    ensures
        r == ops_ok(rows@),
{
    any_op(rows, "sum") && any_op(rows, "prod") && any_op(rows, "min") && any_op(rows, "max")
        && any_op(rows, "avg") && any_op(rows, "mulsum")
}

/// The root number a row holds, where its root field parses as one.
pub open spec fn row_root(row: NcclRow) -> Option<u64> {
    match row.root {
        Some(t) => root_value(utf8(t@)),
        None => None,
    }
}

/// Some row has root `q`.
pub open spec fn has_root(rows: Seq<NcclRow>, q: int) -> bool {
    exists|k: int| 0 <= k < rows.len() && #[trigger] row_root(rows[k]) == Some(q as u64)
}

/// The roots the rows parse to are exactly the ranks `0..n`.
pub open spec fn roots_are_ranks(rows: Seq<NcclRow>, n: int) -> bool {
    &&& forall|k: int| 0 <= k < rows.len() && (#[trigger] row_root(rows[k])) is Some ==> row_root(rows[k])->0 < n
    &&& forall|q: int| 0 <= q < n ==> #[trigger] has_root(rows, q)
}

/// The roots the rows parse to are exactly the ranks `0..n`.
fn roots_cover(rows: &Vec<NcclRow>, n: usize) -> (res: bool)
    ensures
        res == roots_are_ranks(rows@, n as int),
{
    let mut k: usize = 0;
    while k < rows.len()
        invariant
            k <= rows@.len(),
            forall|j: int| 0 <= j < k && (#[trigger] row_root(rows@[j])) is Some ==> row_root(rows@[j])->0 < n,
        decreases rows@.len() - k,
    {
        if let Some(t) = &rows[k].root {
            if let Some(v) = parse_root(t.as_str()) {
                proof { assert(row_root(rows@[k as int]) == Some(v)); }
                if v >= n as u64 {
                    return false;
                }
            }
        }
        k += 1;
    }
    let mut r: usize = 0;
    while r < n
        invariant
            r <= n,
            forall|j: int| 0 <= j < rows@.len() && (#[trigger] row_root(rows@[j])) is Some ==> row_root(rows@[j])->0 < n,
            forall|q: int| 0 <= q < r ==> #[trigger] has_root(rows@, q),
        decreases n - r,
    {
        let mut found = false;
        let mut k: usize = 0;
        while k < rows.len()
            invariant
                k <= rows@.len(),
                r < n,
                found ==> has_root(rows@, r as int),
                !found ==> forall|j: int| 0 <= j < k ==> #[trigger] row_root(rows@[j]) != Some(r as u64),
            decreases rows@.len() - k,
        {
            if let Some(t) = &rows[k].root {
                match parse_root(t.as_str()) {
                    Some(v) => {
                        proof { assert(row_root(rows@[k as int]) == Some(v)); }
                        if v == r as u64 {
                            found = true;
                        }
                    },
                    None => {
                        proof { assert(row_root(rows@[k as int]) is None); }
                    },
                }
            } else {
                proof { assert(row_root(rows@[k as int]) is None); }
            }
            k += 1;
        }
        if !found {
            proof {
                assert(!has_root(rows@, r as int));
            }
            return false;
        }
        r += 1;
    }
    true
}

fn rows_ok(rows: &Vec<NcclRow>, collective: &str) -> (r: bool)
    ensures
        r == rows_checked(rows@, collective@),
{
    if rows.len() == 0 {
        return false;
    }
    let skip = str_eq(collective, "alltoall") || str_eq(collective, "alltoallv") || str_eq(collective, "sendrecv");
    let mut nonzero = false;
    let mut k: usize = 0;
    while k < rows.len()
        invariant
            0 < rows@.len(),
            k <= rows@.len(),
            skip == in_place_unvalidated(collective@),
            forall|j: int| 0 <= j < k ==> measured(#[trigger] rows@[j], collective@),
            nonzero == exists|j: int| 0 <= j < k && (#[trigger] rows@[j]).size > 0,
        decreases rows@.len() - k,
    {
        let o = rows[k].out_of_place;
        let i = rows[k].in_place;
        let o_counts = o.present;
        let i_counts = i.present && !(skip && i.nwrong_null);
        if !(o_counts || i_counts) || (o_counts && !(o.nwrong_zero && o.time_ok))
            || (i_counts && !(i.nwrong_zero && i.time_ok)) {
            proof { assert(!measured(rows@[k as int], collective@)); }
            return false;
        }
        if rows[k].size > 0 {
            nonzero = true;
        }
        proof {
            if rows@[k as int].size > 0 {
                assert(exists|j: int| 0 <= j < k + 1 && (#[trigger] rows@[j]).size > 0);
            }
        }
        k += 1;
    }
    nonzero
}

fn errors_checked(e: &Vec<Option<String>>) -> (r: bool)
    ensures
        r == errors_clean(e@),
{
    let mut k: usize = 0;
    while k < e.len()
        invariant
            k <= e@.len(),
            forall|j: int| 0 <= j < k ==> #[trigger] empty_text(e@[j]),
        decreases e@.len() - k,
    {
        let clean = match &e[k] {
            Some(t) => t.as_str().unicode_len() == 0,
            None => false,
        };
        if !clean {
            proof { assert(!empty_text(e@[k as int])); }
            return false;
        }
        k += 1;
    }
    true
}

/// An accepted nccl-tests report ran over the simulated socket fabric only: its
/// environment pins NCCL to sockets on `simnccl`, without plugin, InfiniBand, peer to
/// peer or shared memory, and pins Open MPI's TCP transports to `simnccl`.
pub proof fn lemma_accepted_report_pins_socket_fabric(report: NcclReport, collective: Seq<char>, compute: Seq<String>)
    requires
        nccl_accepted(report, collective, compute),
    ensures
        report.env is Some,
        exists|k: int| 0 <= k < report.env->0@.len() && (#[trigger] report.env->0@[k]) is Some
            && report.env->0@[k]->0@ == "NCCL_NET=Socket"@,
        exists|k: int| 0 <= k < report.env->0@.len() && (#[trigger] report.env->0@[k]) is Some
            && report.env->0@[k]->0@ == "NCCL_NET_PLUGIN=none"@,
        exists|k: int| 0 <= k < report.env->0@.len() && (#[trigger] report.env->0@[k]) is Some
            && report.env->0@[k]->0@ == "NCCL_SOCKET_IFNAME==simnccl"@,
        exists|k: int| 0 <= k < report.env->0@.len() && (#[trigger] report.env->0@[k]) is Some
            && report.env->0@[k]->0@ == "NCCL_IB_DISABLE=1"@,
        exists|k: int| 0 <= k < report.env->0@.len() && (#[trigger] report.env->0@[k]) is Some
            && report.env->0@[k]->0@ == "NCCL_P2P_DISABLE=1"@,
        exists|k: int| 0 <= k < report.env->0@.len() && (#[trigger] report.env->0@[k]) is Some
            && report.env->0@[k]->0@ == "NCCL_SHM_DISABLE=1"@,
        exists|k: int| 0 <= k < report.env->0@.len() && (#[trigger] report.env->0@[k]) is Some
            && report.env->0@[k]->0@ == "OMPI_MCA_btl_tcp_if_include=simnccl"@,
        exists|k: int| 0 <= k < report.env->0@.len() && (#[trigger] report.env->0@[k]) is Some
            && report.env->0@[k]->0@ == "OMPI_MCA_oob_tcp_if_include=simnccl"@,
{
}

/// Checks an nccl-tests report of `collective` run across the compute guests: the
/// pinned NCCL, one device per guest with ranks `0..n`, traffic forced onto the
/// simulated fabric, full coverage of message sizes, reduction operations and
/// roots, and every result correct. Any failure is the same `State` error.
pub fn validate_nccl(report: &NcclReport, collective: &str, compute: &Vec<String>) -> (r: Result<()>)
    ensures
        r is Ok <==> nccl_accepted(*report, collective@, compute@),
        r is Err ==> r->Err_0 is State,
        r is Ok ==> report.env is Some,
        r is Ok ==> exists|k: int| 0 <= k < report.env->0@.len() && (#[trigger] report.env->0@[k]) is Some
            && report.env->0@[k]->0@ == "NCCL_NET=Socket"@,
        r is Ok ==> exists|k: int| 0 <= k < report.env->0@.len() && (#[trigger] report.env->0@[k]) is Some
            && report.env->0@[k]->0@ == "NCCL_NET_PLUGIN=none"@,
        r is Ok ==> exists|k: int| 0 <= k < report.env->0@.len() && (#[trigger] report.env->0@[k]) is Some
            && report.env->0@[k]->0@ == "NCCL_SOCKET_IFNAME==simnccl"@,
        r is Ok ==> exists|k: int| 0 <= k < report.env->0@.len() && (#[trigger] report.env->0@[k]) is Some
            && report.env->0@[k]->0@ == "NCCL_IB_DISABLE=1"@,
        r is Ok ==> exists|k: int| 0 <= k < report.env->0@.len() && (#[trigger] report.env->0@[k]) is Some
            && report.env->0@[k]->0@ == "NCCL_P2P_DISABLE=1"@,
        r is Ok ==> exists|k: int| 0 <= k < report.env->0@.len() && (#[trigger] report.env->0@[k]) is Some
            && report.env->0@[k]->0@ == "NCCL_SHM_DISABLE=1"@,
        r is Ok ==> exists|k: int| 0 <= k < report.env->0@.len() && (#[trigger] report.env->0@[k]) is Some
            && report.env->0@[k]->0@ == "OMPI_MCA_btl_tcp_if_include=simnccl"@,
        r is Ok ==> exists|k: int| 0 <= k < report.env->0@.len() && (#[trigger] report.env->0@[k]) is Some
            && report.env->0@[k]->0@ == "OMPI_MCA_oob_tcp_if_include=simnccl"@,
{
    proof {
        reveal_strlit("broadcast");
        reveal_strlit("reduce");
        reveal_strlit("scatter");
        reveal_strlit("gather");
    }
    if !header_checked(report, collective) {
        return Err(nccl_failed());
    }
    let args = match &report.args {
        Some(a) => a,
        None => return Err(nccl_failed()),
    };
    let first_ok = if args.len() > 0 {
        match &args[0] {
            Some(s) => {
                let mut path = "/".to_owned();
                crate::text::append(&mut path, collective);
                crate::text::append(&mut path, "_perf");
                has_suffix(s.as_str(), path.as_str())
            },
            None => false,
        }
    } else {
        false
    };
    if !first_ok {
        return Err(nccl_failed());
    }
    let devices = match &report.devices {
        Some(d) => d,
        None => return Err(nccl_failed()),
    };
    if !devices_checked(devices, compute) {
        return Err(nccl_failed());
    }
    match &report.env {
        Some(e) => if !env_checked(e) {
            return Err(nccl_failed());
        },
        None => return Err(nccl_failed()),
    }
    let rows = match &report.results {
        Some(rows) => rows,
        None => return Err(nccl_failed()),
    };
    if rows.len() == 0 {
        return Err(nccl_failed());
    }
    let reduces = str_eq(collective, "all_reduce") || str_eq(collective, "reduce") || str_eq(collective, "reduce_scatter");
    if reduces && !ops_checked(rows) {
        return Err(nccl_failed());
    }
    let has_root = str_eq(collective, "broadcast") || str_eq(collective, "reduce") || str_eq(collective, "scatter")
        || str_eq(collective, "gather");
    if has_root && !roots_cover(rows, compute.len()) {
        return Err(nccl_failed());
    }
    let covered = match requested_sizes(args) {
        Some(sizes) => {
            let c = grid_complete(rows, &sizes);
            proof {
                let a = args@;
                let b = flag_size(a, "-b"@)->0;
                let e = flag_size(a, "-e"@)->0;
                let f = flag_number(a, "-f"@)->0;
                if exists|v: Seq<u64>| #[trigger] size_run(b, e, f, v) && grid_ok(rows@, v) {
                    let v = choose|v: Seq<u64>| #[trigger] size_run(b, e, f, v) && grid_ok(rows@, v);
                    lemma_run_unique(b, e, f, v, sizes@);
                }
                if c {
                    assert(size_run(b, e, f, sizes@) && grid_ok(rows@, sizes@));
                }
            }
            c
        },
        None => false,
    };
    if !covered || !rows_ok(rows, collective) {
        return Err(nccl_failed());
    }
    match &report.errors {
        Some(e) => if !errors_checked(e) {
            return Err(nccl_failed());
        },
        None => return Err(nccl_failed()),
    }
    Ok(())
}

} // verus!
