#![verifier::loop_isolation(false)]
//! The JSON manifest envelope and its topology: export of a simulation and
//! transactional import through the same validated edits as single calls.
use vstd::prelude::*;
use crate::keyed::{Keyed, has_key, unique_keys, find, str_eq, key_index, keyed, lemma_index_of_key};
use crate::model::{Error, ErrorKind, Result, State, Role, InterfaceType, ServiceType, Resources, LinkSpec, NodeSpec, Node,
    Interface, Link, Service, InstructionData, Instruction, InstructionState, NodeRuntime, Simulation, Pairs, invalid, conflict, unsupported, clone_pairs,
    outcome};
use crate::checkpoint::{same_pairs, same_opt, same_data, eq_data, clone_runtime};
use crate::lifecycle::checkpoint_fits;
use crate::text::append;
use crate::api::Simulator;

verus! {

#[derive(Clone, Debug)]
pub struct ManifestInterface {
    pub interface_type: InterfaceType,
    pub split_parent: Option<String>,
}

impl Default for ManifestInterface {
    fn default() -> (r: Self)
        ensures
            r.interface_type == InterfaceType::Data && r.split_parent is None,
    {
        ManifestInterface { interface_type: InterfaceType::Data, split_parent: None }
    }
}

#[derive(Clone, Debug)]
pub struct ManifestLink {
    pub endpoints: [String; 2],
    pub condition: LinkSpec,
}

#[derive(Clone, Debug)]
pub struct ManifestService {
    pub name: String,
    pub interface: String,
    pub node_port: u16,
    pub service_type: ServiceType,
}

#[derive(Clone, Debug)]
pub struct ManifestInstruction {
    pub node: String,
    pub data: InstructionData,
    pub run_again_on_rebuild: bool,
}

/// A node entry. Label and image-metadata values are JSON documents in text form.
#[derive(Clone, Debug)]
pub struct ManifestNode {
    pub os: String,
    pub cpu: u32,
    pub memory: u64,
    pub storage: u64,
    pub role: Role,
    /// Interfaces by name.
    pub interfaces: Vec<(String, ManifestInterface)>,
    pub labels: Pairs,
    pub user_data: Option<String>,
    pub meta_data: Option<String>,
    pub image_metadata: Pairs,
}

#[derive(Clone, Debug)]
pub struct Topology {
    /// Nodes by name.
    pub nodes: Vec<(String, ManifestNode)>,
    pub links: Vec<ManifestLink>,
    pub oob: bool,
    pub enable_dhcp: bool,
    pub services: Vec<ManifestService>,
    pub instructions: Vec<ManifestInstruction>,
}

#[derive(Clone, Debug)]
pub struct Manifest {
    pub format: String,
    pub name: String,
    pub ztp: Option<String>,
    pub content: Topology,
}

/// Default CPUs of a manifest node.
pub fn cpu() -> (r: u32)
    ensures
        r == 2,
{
    2
}

/// Default memory of a manifest node, in MiB.
pub fn memory() -> (r: u64)
    ensures
        r == 1024,
{
    1024
}

/// Default storage of a manifest node, in GB.
pub fn storage() -> (r: u64)
    ensures
        r == 10,
{
    10
}

/// The `node:interface` form of an interface's name.
pub open spec fn endpoint_text(s: Simulation, iface: Seq<char>) -> Seq<char> {
    let i = keyed(s.interfaces@, iface);
    keyed(s.nodes@, i.node@).spec.name@ + ":"@ + i.name@
}

/// `JSON` in any ASCII letter case.
pub open spec fn json_format(f: Seq<char>) -> bool {
    &&& f.len() == 4
    &&& (f[0] == 'j' || f[0] == 'J') && (f[1] == 's' || f[1] == 'S')
    &&& (f[2] == 'o' || f[2] == 'O') && (f[3] == 'n' || f[3] == 'N')
}

pub fn is_json_format(f: &str) -> (r: bool)
    ensures
        r == json_format(f@),
{
    if f.unicode_len() != 4 {
        return false;
    }
    let a = f.get_char(0);
    let b = f.get_char(1);
    let c = f.get_char(2);
    let d = f.get_char(3);
    (a == 'j' || a == 'J') && (b == 's' || b == 'S') && (c == 'o' || c == 'O') && (d == 'n' || d == 'N')
}

impl Simulation {
    /// The `node:interface` name of interface `id`.
    fn endpoint_name(&self, id: &str) -> (r: String)
        requires
            self.wf(),
            has_key(self.interfaces@, id@),
        ensures
            r@ == endpoint_text(*self, id@),
    {
        let i = find(&self.interfaces, id).unwrap();
        proof { lemma_index_of_key(self.interfaces@, i as int); }
        let n = find(&self.nodes, self.interfaces[i].node.as_str()).unwrap();
        proof { lemma_index_of_key(self.nodes@, n as int); }
        let mut s = self.nodes[n].spec.name.clone();
        append(&mut s, ":");
        append(&mut s, self.interfaces[i].name.as_str());
        s
    }

    /// Finds the interface named by `value`, `node:interface` form.
    fn endpoint(&self, value: &str) -> (r: Result<usize>)
        requires
            self.wf(),
        ensures
            r matches Ok(i) ==> i < self.interfaces@.len(),
            r is Err ==> r->Err_0 is Invalid || r->Err_0 is NotFound,
    {
        let n = value.unicode_len();
        let mut c: usize = 0;
        while c < n && value.get_char(c) != ':'
            invariant
                n == value@.len(),
                c <= n,
            decreases n - c,
        {
            c += 1;
        }
        if c == n {
            return Err(invalid("endpoint needs node:interface"));
        }
        let node = value.substring_char(0, c);
        let iface = value.substring_char(c + 1, n);
        let nd = self.node_named(node)?;
        let id = nd.id.clone();
        let mut i: usize = 0;
        while i < self.interfaces.len()
            invariant
                i <= self.interfaces@.len(),
            decreases self.interfaces@.len() - i,
        {
            if str_eq(self.interfaces[i].node.as_str(), id.as_str()) && str_eq(self.interfaces[i].name.as_str(), iface) {
                return Ok(i);
            }
            i += 1;
        }
        Err(Error::NotFound(value.to_owned()))
    }
}

/// Every lane's parent interface is present.
pub open spec fn parents_present(s: Simulation) -> bool {
    forall|i: int| 0 <= i < s.interfaces@.len() ==> ((#[trigger] s.interfaces@[i]).split_parent matches Some(p)
        ==> has_key(s.interfaces@, p@))
}

pub open spec fn on_node(node: Seq<char>) -> spec_fn(Interface) -> bool {
    |i: Interface| i.node@ == node
}

pub open spec fn exported_interface(m: (String, ManifestInterface), i: Interface, s: Simulation) -> bool {
    &&& m.0@ == i.name@ && m.1.interface_type == i.interface_type
    &&& match i.split_parent {
        None => m.1.split_parent is None,
        Some(p) => m.1.split_parent is Some && m.1.split_parent->0@ == keyed(s.interfaces@, p@).name@,
    }
}

/// Entry `e` describes node `n` of `s`, its interfaces in order.
pub open spec fn exported_node(e: (String, ManifestNode), n: Node, s: Simulation) -> bool {
    let own = s.interfaces@.filter(on_node(n.id@));
    &&& e.0@ == n.spec.name@ && e.1.os@ == n.spec.image@ && e.1.role == n.spec.role
    &&& e.1.cpu == n.spec.resources.cpu && e.1.memory == n.spec.resources.memory && e.1.storage == n.spec.resources.storage
    &&& same_pairs(e.1.labels@, n.spec.labels@) && same_opt(e.1.user_data, n.user_data)
    &&& same_opt(e.1.meta_data, n.meta_data) && same_pairs(e.1.image_metadata@, n.manifest_fields@)
    &&& e.1.interfaces@.len() == own.len()
    &&& forall|k: int| 0 <= k < own.len() ==> exported_interface(#[trigger] e.1.interfaces@[k], own[k], s)
}

pub open spec fn exported_link(m: ManifestLink, l: Link, s: Simulation) -> bool {
    m.endpoints[0]@ == endpoint_text(s, l.interfaces[0]@) && m.endpoints[1]@ == endpoint_text(s, l.interfaces[1]@)
        && m.condition == l.spec
}

pub open spec fn exported_service(m: ManifestService, v: Service, s: Simulation) -> bool {
    m.name@ == v.name@ && m.interface@ == endpoint_text(s, v.interface@) && m.node_port == v.node_port
        && m.service_type == v.service_type
}

pub open spec fn exported_instruction(m: ManifestInstruction, i: Instruction, s: Simulation) -> bool {
    m.node@ == keyed(s.nodes@, i.node@).spec.name@ && same_data(m.data, i.data) && m.run_again_on_rebuild == i.run_again_on_rebuild
}

/// `m` is the export of some link of `s`.
pub open spec fn link_from(m: ManifestLink, s: Simulation) -> bool {
    exists|i: int| 0 <= i < s.links@.len() && exported_link(m, #[trigger] s.links@[i], s)
}

/// Link `l` is exported somewhere in `m`.
pub open spec fn link_to(l: Link, m: Manifest, s: Simulation) -> bool {
    exists|j: int| 0 <= j < m.content.links@.len() && exported_link(#[trigger] m.content.links@[j], l, s)
}

/// `m` describes `s`: every node, link, service and instruction, the ZTP script
/// and the OOB settings. Links come sorted by their endpoint names.
pub open spec fn exported(m: Manifest, s: Simulation) -> bool {
    &&& m.format@ == "JSON"@ && m.name@ == s.name@ && same_opt(m.ztp, s.ztp_script)
    &&& m.content.oob == s.auto_oob_enabled && m.content.enable_dhcp == s.enable_dhcp
    &&& m.content.nodes@.len() == s.nodes@.len()
    &&& forall|i: int| 0 <= i < s.nodes@.len() ==> exported_node(#[trigger] m.content.nodes@[i], s.nodes@[i], s)
    &&& m.content.links@.len() == s.links@.len()
    &&& forall|j: int| 0 <= j < m.content.links@.len() ==> link_from(#[trigger] m.content.links@[j], s)
    &&& forall|i: int| 0 <= i < s.links@.len() ==> link_to(#[trigger] s.links@[i], m, s)
    &&& m.content.services@.len() == s.services@.len()
    &&& forall|i: int| 0 <= i < s.services@.len() ==> exported_service(#[trigger] m.content.services@[i], s.services@[i], s)
    &&& instructions_listed(m.content.instructions@, s)
}

/// Position `j` of `ms` exports instruction `p[j]` of `s`, each instruction once.
pub open spec fn instruction_order(ms: Seq<ManifestInstruction>, s: Simulation, p: Seq<int>) -> bool {
    &&& p.len() == ms.len() && ms.len() == s.instructions@.len()
    &&& forall|j: int| 0 <= j < ms.len() ==> 0 <= p[j] < ms.len()
        && exported_instruction(#[trigger] ms[j], s.instructions@[p[j]], s)
    &&& forall|j: int, k: int| 0 <= j < k < ms.len() ==> p[j] != p[k]
}

/// `ms` exports the instructions of `s`, each once, in some order.
pub open spec fn instructions_listed(ms: Seq<ManifestInstruction>, s: Simulation) -> bool {
    exists|p: Seq<int>| #[trigger] instruction_order(ms, s, p)
}

/// Byte order of strings, as `str` compares them.
pub open spec fn text_less(a: Seq<char>, b: Seq<char>) -> bool {
    crate::text::bytes_lt(crate::text::utf8(a), crate::text::utf8(b))
}

/// Rank of an instruction kind in the canonical order.
pub open spec fn kind_order(d: InstructionData) -> u8 {
    match d {
        InstructionData::File { .. } => 0,
        InstructionData::Init { .. } => 1,
        InstructionData::Shell { .. } => 2,
    }
}

/// Lexicographic order of string lists.
pub open spec fn strings_less(a: Seq<String>, b: Seq<String>) -> bool
    decreases a.len(),
{
    if a.len() == 0 || b.len() == 0 {
        a.len() < b.len()
    } else if a[0]@ != b[0]@ {
        text_less(a[0]@, b[0]@)
    } else {
        strings_less(a.drop_first(), b.drop_first())
    }
}

/// Lexicographic order of key and value lists, keys before values.
pub open spec fn pairs_less(a: Seq<(String, String)>, b: Seq<(String, String)>) -> bool
    decreases a.len(),
{
    if a.len() == 0 || b.len() == 0 {
        a.len() < b.len()
    } else if a[0].0@ != b[0].0@ {
        text_less(a[0].0@, b[0].0@)
    } else if a[0].1@ != b[0].1@ {
        text_less(a[0].1@, b[0].1@)
    } else {
        pairs_less(a.drop_first(), b.drop_first())
    }
}

/// The data of two instructions of one kind, compared; `None` when neither comes first.
pub open spec fn data_less(x: InstructionData, y: InstructionData) -> Option<bool> {
    match (x, y) {
        (InstructionData::Init { hostname: a }, InstructionData::Init { hostname: b }) =>
            if a@ != b@ { Some(text_less(a@, b@)) } else { None },
        (InstructionData::File { files: a }, InstructionData::File { files: b }) =>
            if pairs_less(a@, b@) { Some(true) } else if pairs_less(b@, a@) { Some(false) } else { None },
        (InstructionData::Shell { commands: a }, InstructionData::Shell { commands: b }) =>
            if strings_less(a@, b@) { Some(true) } else if strings_less(b@, a@) { Some(false) } else { None },
        _ => None,
    }
}

/// The canonical order of exported instructions: by node name, kind, content and
/// rebuild flag.
pub open spec fn instruction_less(a: ManifestInstruction, b: ManifestInstruction) -> bool {
    if a.node@ != b.node@ {
        text_less(a.node@, b.node@)
    } else if kind_order(a.data) != kind_order(b.data) {
        kind_order(a.data) < kind_order(b.data)
    } else {
        match data_less(a.data, b.data) {
            Some(r) => r,
            None => !a.run_again_on_rebuild && b.run_again_on_rebuild,
        }
    }
}

/// Rank of an instruction kind in the canonical order.
fn kind_rank(d: &InstructionData) -> (r: u8)
    ensures
        r == kind_order(*d),
{
    match d {
        InstructionData::File { .. } => 0,
        InstructionData::Init { .. } => 1,
        InstructionData::Shell { .. } => 2,
    }
}

/// Whether `a` and `b` are equal strings, or else whether `a < b`.
fn text_order(a: &str, b: &str) -> (r: (bool, bool))
    ensures
        r.0 == (a@ == b@),
        r.1 == text_less(a@, b@),
{
    (str_eq(a, b), crate::text::str_lt(a, b))
}

/// Lexicographic `a < b` over lists of strings.
fn strings_lt(a: &Vec<String>, b: &Vec<String>) -> (r: bool)
    ensures
        r == strings_less(a@, b@),
{
    let mut i: usize = 0;
    proof {
        assert(a@.skip(0) =~= a@);
        assert(b@.skip(0) =~= b@);
    }
    while i < a.len() && i < b.len()
        invariant
            i <= a@.len(),
            i <= b@.len(),
            strings_less(a@, b@) == strings_less(a@.skip(i as int), b@.skip(i as int)),
        decreases a@.len() - i,
    {
        let (same, less) = text_order(a[i].as_str(), b[i].as_str());
        proof {
            assert(a@.skip(i as int)[0] == a@[i as int]);
            assert(b@.skip(i as int)[0] == b@[i as int]);
            assert(a@.skip(i as int).drop_first() =~= a@.skip(i + 1));
            assert(b@.skip(i as int).drop_first() =~= b@.skip(i + 1));
        }
        if !same {
            return less;
        }
        i += 1;
    }
    a.len() < b.len()
}

/// Lexicographic `a < b` over lists of key and value pairs.
fn pairs_lt(a: &Pairs, b: &Pairs) -> (r: bool)
    ensures
        r == pairs_less(a@, b@),
{
    let mut i: usize = 0;
    proof {
        assert(a@.skip(0) =~= a@);
        assert(b@.skip(0) =~= b@);
    }
    while i < a.len() && i < b.len()
        invariant
            i <= a@.len(),
            i <= b@.len(),
            pairs_less(a@, b@) == pairs_less(a@.skip(i as int), b@.skip(i as int)),
        decreases a@.len() - i,
    {
        proof {
            assert(a@.skip(i as int)[0] == a@[i as int]);
            assert(b@.skip(i as int)[0] == b@[i as int]);
            assert(a@.skip(i as int).drop_first() =~= a@.skip(i + 1));
            assert(b@.skip(i as int).drop_first() =~= b@.skip(i + 1));
        }
        let (same, less) = text_order(a[i].0.as_str(), b[i].0.as_str());
        if !same {
            return less;
        }
        let (same, less) = text_order(a[i].1.as_str(), b[i].1.as_str());
        if !same {
            return less;
        }
        i += 1;
    }
    a.len() < b.len()
}

/// The canonical order of exported instructions: by node name, kind, content and
/// rebuild flag.
fn instruction_lt(a: &ManifestInstruction, b: &ManifestInstruction) -> (r: bool)
    ensures
        r == instruction_less(*a, *b),
{
    let (same, less) = text_order(a.node.as_str(), b.node.as_str());
    if !same {
        return less;
    }
    let (ra, rb) = (kind_rank(&a.data), kind_rank(&b.data));
    if ra != rb {
        return ra < rb;
    }
    match (&a.data, &b.data) {
        (InstructionData::Init { hostname: x }, InstructionData::Init { hostname: y }) => {
            let (same, less) = text_order(x.as_str(), y.as_str());
            if !same {
                return less;
            }
        },
        (InstructionData::File { files: x }, InstructionData::File { files: y }) => {
            if pairs_lt(x, y) {
                return true;
            }
            if pairs_lt(y, x) {
                return false;
            }
        },
        (InstructionData::Shell { commands: x }, InstructionData::Shell { commands: y }) => {
            if strings_lt(x, y) {
                return true;
            }
            if strings_lt(y, x) {
                return false;
            }
        },
        _ => {},
    }
    !a.run_again_on_rebuild && b.run_again_on_rebuild
}

/// Lexicographic `x < y` over two strings.
pub fn pair_lt(x: &[String; 2], y: &[String; 2]) -> (r: bool)
    ensures
        r == (if x[0]@ != y[0]@ { text_less(x[0]@, y[0]@) } else { text_less(x[1]@, y[1]@) }),
{
    if !str_eq(x[0].as_str(), y[0].as_str()) {
        return crate::text::str_lt(x[0].as_str(), y[0].as_str());
    }
    crate::text::str_lt(x[1].as_str(), y[1].as_str())
}

impl Simulation {
    fn export_node(&self, i: usize) -> (r: Result<(String, ManifestNode)>)
        requires
            self.wf(),
            i < self.nodes@.len(),
        ensures
            r is Err <==> !parents_present_on(*self, self.nodes@[i as int].id@),
            r is Err ==> r->Err_0 is NotFound,
            r matches Ok(e) ==> exported_node(e, self.nodes@[i as int], *self),
    {
        let n = &self.nodes[i];
        let ghost own_all = self.interfaces@.filter(on_node(n.id@));
        let mut list: Vec<(String, ManifestInterface)> = Vec::new();
        let mut j: usize = 0;
        proof { assert(self.interfaces@.take(0).filter(on_node(n.id@)) =~= Seq::<Interface>::empty()) by { reveal(Seq::filter); } }
        while j < self.interfaces.len()
            invariant
                j <= self.interfaces@.len(),
                list@.len() == self.interfaces@.take(j as int).filter(on_node(n.id@)).len(),
                forall|k: int| 0 <= k < list@.len() ==> exported_interface(#[trigger] list@[k],
                    self.interfaces@.take(j as int).filter(on_node(n.id@))[k], *self),
                forall|k: int| 0 <= k < j && (#[trigger] self.interfaces@[k]).node@ == n.id@ ==>
                    (self.interfaces@[k].split_parent matches Some(p) ==> has_key(self.interfaces@, p@)),
            decreases self.interfaces@.len() - j,
        {
            let x = &self.interfaces[j];
            proof {
                assert(self.interfaces@.take(j + 1) =~= self.interfaces@.take(j as int).push(*x));
                crate::keyed::lemma_filter_push(self.interfaces@.take(j as int), on_node(n.id@), *x);
            }
            if str_eq(x.node.as_str(), n.id.as_str()) {
                let parent = match &x.split_parent {
                    None => None,
                    Some(p) => match find(&self.interfaces, p.as_str()) {
                        Some(q) => {
                            proof { lemma_index_of_key(self.interfaces@, q as int); }
                            Some(self.interfaces[q].name.clone())
                        },
                        None => {
                            proof { assert(!parents_present_on(*self, n.id@)); }
                            return Err(Error::NotFound(p.clone()));
                        },
                    },
                };
                let ghost before = list@;
                list.push((x.name.clone(), ManifestInterface { interface_type: x.interface_type, split_parent: parent }));
                proof {
                    assert forall|k: int| 0 <= k < list@.len() implies exported_interface(#[trigger] list@[k],
                        self.interfaces@.take(j + 1).filter(on_node(n.id@))[k], *self) by {
                        if k < before.len() {
                            assert(list@[k] == before[k]);
                        }
                    }
                }
            }
            j += 1;
        }
        proof { assert(self.interfaces@.take(j as int) =~= self.interfaces@); }
        Ok((n.spec.name.clone(), ManifestNode {
            os: n.spec.image.clone(),
            cpu: n.spec.resources.cpu,
            memory: n.spec.resources.memory,
            storage: n.spec.resources.storage,
            role: n.spec.role,
            interfaces: list,
            labels: clone_pairs(&n.spec.labels),
            user_data: crate::model::clone_opt_string(&n.user_data),
            meta_data: crate::model::clone_opt_string(&n.meta_data),
            image_metadata: clone_pairs(&n.manifest_fields),
        }))
    }
}

/// Every lane on `node` has its parent present.
pub open spec fn parents_present_on(s: Simulation, node: Seq<char>) -> bool {
    forall|i: int| 0 <= i < s.interfaces@.len() && (#[trigger] s.interfaces@[i]).node@ == node
        ==> (s.interfaces@[i].split_parent matches Some(p) ==> has_key(s.interfaces@, p@))
}

impl Simulation {
    /// This simulation as a manifest. `NotFound` when a lane's parent interface is missing.
    #[verifier::spinoff_prover]
    #[verifier::rlimit(50)]
    pub fn export(&self) -> (r: Result<Manifest>)
        requires
            self.wf(),
        ensures
            r is Err <==> !parents_present(*self),
            r is Err ==> r->Err_0 is NotFound,
            r matches Ok(m) ==> exported(m, *self),
    {
        let mut nodes: Vec<(String, ManifestNode)> = Vec::new();
        let mut i: usize = 0;
        while i < self.nodes.len()
            invariant
                self.wf(),
                i <= self.nodes@.len(),
                nodes@.len() == i,
                forall|k: int| 0 <= k < i ==> exported_node(#[trigger] nodes@[k], self.nodes@[k], *self),
                forall|k: int| 0 <= k < i ==> parents_present_on(*self, (#[trigger] self.nodes@[k]).id@),
            decreases self.nodes@.len() - i,
        {
            let e = match self.export_node(i) {
                Ok(e) => e,
                Err(err) => {
                    proof {
                        let n = self.nodes@[i as int].id@;
                        let x = choose|x: int| 0 <= x < self.interfaces@.len() && (#[trigger] self.interfaces@[x]).node@ == n
                            && !(self.interfaces@[x].split_parent matches Some(p) ==> has_key(self.interfaces@, p@));
                        assert(!parents_present(*self));
                    }
                    return Err(err);
                },
            };
            nodes.push(e);
            i += 1;
        }
        proof {
            assert forall|x: int| 0 <= x < self.interfaces@.len() implies ((#[trigger] self.interfaces@[x]).split_parent matches Some(p)
                ==> has_key(self.interfaces@, p@)) by {
                let n = self.interfaces@[x].node@;
                assert(has_key(self.nodes@, n));
                let k = key_index(self.nodes@, n);
                assert(self.nodes@[k].id@ == n);
                assert(parents_present_on(*self, self.nodes@[k].id@));
            }
        }
        let mut ends: Vec<[String; 2]> = Vec::new();
        let mut i: usize = 0;
        while i < self.links.len()
            invariant
                self.wf(),
                i <= self.links@.len(),
                ends@.len() == i,
                forall|k: int| 0 <= k < i ==> (#[trigger] ends@[k])[0]@ == endpoint_text(*self, self.links@[k].interfaces[0]@)
                    && ends@[k][1]@ == endpoint_text(*self, self.links@[k].interfaces[1]@),
            decreases self.links@.len() - i,
        {
            let a = self.endpoint_name(self.links[i].interfaces[0].as_str());
            let b = self.endpoint_name(self.links[i].interfaces[1].as_str());
            ends.push([a, b]);
            i += 1;
        }
        let mut order: Vec<usize> = Vec::new();
        let mut i: usize = 0;
        while i < self.links.len()
            invariant
                i <= self.links@.len(),
                order@.len() == i,
                forall|k: int| 0 <= k < i ==> (#[trigger] order@[k]) == k,
            decreases self.links@.len() - i,
        {
            order.push(i);
            i += 1;
        }
        proof {
            assert forall|t: int| 0 <= t < self.links@.len() implies #[trigger] crate::topology::listed(order@, t) by {
                assert(order@[t] == t);
            }
        }
        let ghost n = order@.len();
        let mut i: usize = 1;
        while i < order.len()
            invariant
                order@.len() == n == self.links@.len() == ends@.len(),
                forall|k: int| 0 <= k < n ==> #[trigger] order@[k] < n,
                forall|t: int| 0 <= t < n ==> #[trigger] crate::topology::listed(order@, t),
            decreases n - i,
        {
            let mut j: usize = i;
            while j > 0 && pair_lt(&ends[order[j]], &ends[order[j - 1]])
                invariant
                    order@.len() == n == self.links@.len() == ends@.len(),
                    j < n,
                    forall|k: int| 0 <= k < n ==> #[trigger] order@[k] < n,
                    forall|t: int| 0 <= t < n ==> #[trigger] crate::topology::listed(order@, t),
                decreases j,
            {
                let t = order[j];
                let u = order[j - 1];
                let ghost r0 = order@;
                order.set(j, u);
                order.set(j - 1, t);
                proof {
                    assert forall|x: int| 0 <= x < n implies #[trigger] crate::topology::listed(order@, x) by {
                        assert(crate::topology::listed(r0, x));
                        let k = choose|k: int| 0 <= k < r0.len() && (#[trigger] r0[k]) == x;
                        if k == j {
                            assert(order@[j - 1] == x);
                        } else if k == j - 1 {
                            assert(order@[j as int] == x);
                        } else {
                            assert(order@[k] == x);
                        }
                    }
                }
                j -= 1;
            }
            i += 1;
        }
        let mut links: Vec<ManifestLink> = Vec::new();
        let mut i: usize = 0;
        while i < order.len()
            invariant
                order@.len() == self.links@.len() == ends@.len(),
                forall|k: int| 0 <= k < order@.len() ==> #[trigger] order@[k] < order@.len(),
                forall|k: int| 0 <= k < ends@.len() ==> (#[trigger] ends@[k])[0]@ == endpoint_text(*self, self.links@[k].interfaces[0]@)
                    && ends@[k][1]@ == endpoint_text(*self, self.links@[k].interfaces[1]@),
                i <= order@.len(),
                links@.len() == i,
                forall|k: int| 0 <= k < i ==> exported_link(#[trigger] links@[k], self.links@[order@[k] as int], *self),
            decreases order@.len() - i,
        {
            let x = order[i];
            links.push(ManifestLink {
                endpoints: [ends[x][0].clone(), ends[x][1].clone()],
                condition: self.links[x].spec,
            });
            i += 1;
        }
        let mut services: Vec<ManifestService> = Vec::new();
        let mut i: usize = 0;
        while i < self.services.len()
            invariant
                self.wf(),
                i <= self.services@.len(),
                services@.len() == i,
                forall|k: int| 0 <= k < i ==> exported_service(#[trigger] services@[k], self.services@[k], *self),
            decreases self.services@.len() - i,
        {
            let v = &self.services[i];
            services.push(ManifestService {
                name: v.name.clone(),
                interface: self.endpoint_name(v.interface.as_str()),
                node_port: v.node_port,
                service_type: v.service_type,
            });
            i += 1;
        }
        let mut instructions: Vec<ManifestInstruction> = Vec::new();
        let ghost mut p: Seq<int> = Seq::empty();
        let mut i: usize = 0;
        while i < self.instructions.len()
            invariant
                self.wf(),
                i <= self.instructions@.len(),
                instructions@.len() == i && p.len() == i,
                forall|j: int| 0 <= j < i ==> 0 <= #[trigger] p[j] < i,
                forall|j: int| 0 <= j < i ==> exported_instruction(#[trigger] instructions@[j], self.instructions@[p[j]], *self),
                forall|j: int, k: int| 0 <= j < k < i ==> p[j] != p[k],
            decreases self.instructions@.len() - i,
        {
            let x = &self.instructions[i];
            let q = find(&self.nodes, x.node.as_str()).unwrap();
            proof { lemma_index_of_key(self.nodes@, q as int); }
            let entry = ManifestInstruction {
                node: self.nodes[q].spec.name.clone(),
                data: crate::checkpoint::clone_data(&x.data),
                run_again_on_rebuild: x.run_again_on_rebuild,
            };
            let mut at: usize = 0;
            while at < instructions.len() && !instruction_lt(&entry, &instructions[at])
                invariant
                    at <= instructions@.len(),
                decreases instructions@.len() - at,
            {
                at += 1;
            }
            let ghost before = instructions@;
            let ghost old_p = p;
            instructions.insert(at, entry);
            proof {
                before.insert_ensures(at as int, entry);
                old_p.insert_ensures(at as int, i as int);
                p = old_p.insert(at as int, i as int);
                assert forall|j: int| 0 <= j < i + 1 implies 0 <= #[trigger] p[j] < i + 1 by {
                    if j < at {
                        assert(p[j] == old_p[j]);
                    } else if j > at {
                        assert(p[j] == old_p[j - 1]);
                    }
                }
                assert forall|j: int| 0 <= j < i + 1 implies
                    exported_instruction(#[trigger] instructions@[j], self.instructions@[p[j]], *self) by {
                    if j < at {
                        assert(instructions@[j] == before[j] && p[j] == old_p[j]);
                    } else if j > at {
                        assert(instructions@[j] == before[j - 1] && p[j] == old_p[j - 1]);
                    }
                }
                assert forall|j: int, k: int| 0 <= j < k < i + 1 implies p[j] != p[k] by {
                    let oj = if j < at { j } else { j - 1 };
                    let ok = if k < at { k } else { k - 1 };
                    if j == at {
                        assert(p[j] == i);
                        assert(p[k] == old_p[ok]);
                        assert(0 <= old_p[ok] < i);
                    } else if k == at {
                        assert(p[k] == i);
                        assert(p[j] == old_p[oj]);
                        assert(0 <= old_p[oj] < i);
                    } else {
                        assert(p[j] == old_p[oj] && p[k] == old_p[ok]);
                        assert(oj < ok);
                        assert(old_p[oj] != old_p[ok]);
                    }
                }
            }
            i += 1;
        }
        let m = Manifest {
            format: "JSON".to_owned(),
            name: self.name.clone(),
            ztp: crate::model::clone_opt_string(&self.ztp_script),
            content: Topology {
                nodes,
                links,
                oob: self.auto_oob_enabled,
                enable_dhcp: self.enable_dhcp,
                services,
                instructions,
            },
        };
        proof {
            reveal_strlit("JSON");
            assert forall|j: int| 0 <= j < m.content.links@.len() implies link_from(#[trigger] m.content.links@[j], *self) by {
                assert(exported_link(m.content.links@[j], self.links@[order@[j] as int], *self));
            }
            assert forall|i: int| 0 <= i < self.links@.len() implies link_to(#[trigger] self.links@[i], m, *self) by {
                assert(crate::topology::listed(order@, i));
                let j = choose|j: int| 0 <= j < order@.len() && order@[j] == i;
                assert(exported_link(m.content.links@[j], self.links@[order@[j] as int], *self));
            }
            assert(m.content.instructions@ == instructions@);
            assert(p.len() == m.content.instructions@.len());
            assert(m.content.instructions@.len() == self.instructions@.len());
            assert forall|j: int| 0 <= j < m.content.instructions@.len() implies 0 <= p[j] < m.content.instructions@.len()
                && exported_instruction(#[trigger] m.content.instructions@[j], self.instructions@[p[j]], *self) by {
                assert(0 <= p[j] < i);
                assert(exported_instruction(instructions@[j], self.instructions@[p[j]], *self));
            }
            assert(instruction_order(m.content.instructions@, *self, p));
        }
        Ok(m)
    }
}

/// Image metadata kept from a manifest node.
pub open spec fn known_field(f: Seq<char>) -> bool {
    f == "positioning"@ || f == "features"@ || f == "pxehost"@ || f == "secureboot"@ || f == "oob"@ || f == "network_pci"@
}

fn is_known_field(f: &str) -> (r: bool)
    ensures
        r == known_field(f@),
{
    str_eq(f, "positioning") || str_eq(f, "features") || str_eq(f, "pxehost") || str_eq(f, "secureboot")
        || str_eq(f, "oob") || str_eq(f, "network_pci")
}

/// `s` is an inactive simulation built from `m`: its name, as many nodes, links,
/// services and instructions as the manifest lists, its OOB settings and its ZTP script.
pub open spec fn built_from(s: Simulation, m: Manifest) -> bool {
    &&& s.wf() && s.state == State::Inactive && s.name@ == m.name@
    &&& s.nodes@.len() == m.content.nodes@.len()
    &&& s.links@.len() == m.content.links@.len()
    &&& s.services@.len() == m.content.services@.len()
    &&& s.instructions@.len() == m.content.instructions@.len()
    &&& s.auto_oob_enabled == m.content.oob
    &&& s.enable_dhcp == (m.content.oob && m.content.enable_dhcp)
    &&& m.ztp is Some ==> s.ztp_script == m.ztp
}

/// A manifest that names its simulation and lists nothing else, with no DHCP leases asked for.
pub open spec fn bare_manifest(m: Manifest) -> bool {
    &&& !crate::api::blank(m.name@)
    &&& m.content.nodes@.len() == 0 && m.content.links@.len() == 0
    &&& m.content.services@.len() == 0 && m.content.instructions@.len() == 0
    &&& !(m.content.oob && m.content.enable_dhcp)
}

/// Every image metadata field of a manifest node is one the importer knows.
pub open spec fn fields_known(m: ManifestNode) -> bool {
    forall|f: int| 0 <= f < m.image_metadata@.len() ==> known_field(#[trigger] m.image_metadata@[f].0@)
}

/// The position of the entry named `name`.
fn entry<T>(v: &Vec<(String, T)>, name: &str) -> (r: Option<usize>)
    ensures
        r matches Some(i) ==> i < v@.len() && v@[i as int].0@ == name@
            && forall|j: int| 0 <= j < i ==> v@[j].0@ != name@,
        r is None ==> forall|j: int| 0 <= j < v@.len() ==> v@[j].0@ != name@,
{
    let mut i: usize = 0;
    while i < v.len()
        invariant
            i <= v@.len(),
            forall|j: int| 0 <= j < i ==> v@[j].0@ != name@,
        decreases v@.len() - i,
    {
        if str_eq(v[i].0.as_str(), name) {
            return Some(i);
        }
        i += 1;
    }
    None
}

impl Simulation {
    /// Adds one manifest node with its interfaces and breakout structure.
    fn import_node(&mut self, name: &str, m: &ManifestNode) -> (r: Result<()>)
        requires
            old(self).wf(),
        ensures
            final(self).wf(),
            r is Ok ==> final(self).state == old(self).state && final(self).name == old(self).name,
            !fields_known(*m) ==> r is Err && r->Err_0 is Invalid,
            r is Ok ==> final(self).nodes@.len() == old(self).nodes@.len() + 1
                && !crate::api::name_taken(old(self).nodes@, name@) && crate::api::name_taken(final(self).nodes@, name@),
            r is Ok ==> final(self).interfaces@.len() == old(self).interfaces@.len() + m.interfaces@.len(),
            r is Ok ==> final(self).links@ == old(self).links@ && final(self).services@ == old(self).services@
                && final(self).instructions@ == old(self).instructions@,
    {
        let ghost links0 = self.links@;
        let ghost services0 = self.services@;
        let ghost instructions0 = self.instructions@;
        let ghost state0 = self.state;
        let ghost name0 = self.name;
        let ghost nodes0 = self.nodes@;
        let ghost ifs0 = self.interfaces@.len();
        let mut f: usize = 0;
        while f < m.image_metadata.len()
            invariant
                f <= m.image_metadata@.len(),
                forall|g: int| 0 <= g < f ==> known_field(#[trigger] m.image_metadata@[g].0@),
            decreases m.image_metadata@.len() - f,
        {
            if !is_known_field(m.image_metadata[f].0.as_str()) {
                return Err(invalid("unknown node field; put custom metadata in labels"));
            }
            f += 1;
        }
        let spec = NodeSpec {
            name: name.to_owned(),
            image: m.os.clone(),
            role: m.role,
            resources: Resources { cpu: m.cpu, memory: m.memory, storage: m.storage },
            labels: clone_pairs(&m.labels),
        };
        let ghost spec0 = spec;
        let ghost before = *self;
        let id = self.create_node(spec)?;
        proof { lemma_node_named(before, *self, id@, spec0); }
        if let Some(k) = find(&self.nodes, id.as_str()) {
            let ghost a = *self;
            self.nodes[k].manifest_fields = clone_pairs(&m.image_metadata);
            self.nodes[k].user_data = crate::model::clone_opt_string(&m.user_data);
            self.nodes[k].meta_data = crate::model::clone_opt_string(&m.meta_data);
            proof {
                let t = *self;
                assert forall|x: int| 0 <= x < t.nodes@.len() implies #[trigger] t.nodes@[x].key() == a.nodes@[x].key() by {}
                crate::keyed::lemma_same_keys(a.nodes@, t.nodes@);
                assert forall|x: int, y: int| 0 <= x < t.nodes@.len() && 0 <= y < t.nodes@.len() && x != y
                    implies t.nodes@[x].spec.name@ != t.nodes@[y].spec.name@ by {
                    assert(t.nodes@[x].spec == a.nodes@[x].spec && t.nodes@[y].spec == a.nodes@[y].spec);
                }
                assert forall|x: int| 0 <= x < t.nodes@.len() implies crate::model::keys_unique(#[trigger] t.nodes@[x].runtime.files@) by {
                    assert(t.nodes@[x].runtime == a.nodes@[x].runtime);
                }
                assert forall|x: int| 0 <= x < t.interfaces@.len() implies has_key(t.nodes@, #[trigger] t.interfaces@[x].node@) by {
                    assert(has_key(a.nodes@, t.interfaces@[x].node@));
                }
                assert forall|x: int| 0 <= x < t.instructions@.len() implies has_key(t.nodes@, #[trigger] t.instructions@[x].node@) by {
                    assert(has_key(a.nodes@, t.instructions@[x].node@));
                }
                assert(t.nodes@[before.nodes@.len() as int].spec == a.nodes@[before.nodes@.len() as int].spec);
            }
        }
        proof {
            let w = before.nodes@.len() as int;
            assert(self.nodes@[w].spec.name@ == name@);
            assert(crate::api::name_taken(self.nodes@, name@));
        }
        let ghost nodes1 = self.nodes@;
        let mut j: usize = 0;
        while j < m.interfaces.len()
            invariant
                self.wf(),
                self.state == state0,
                self.name == name0,
                j <= m.interfaces@.len(),
                self.nodes@ == nodes1,
                self.interfaces@.len() == ifs0 + j,
                self.links@ == links0 && self.services@ == services0 && self.instructions@ == instructions0,
            decreases m.interfaces@.len() - j,
        {
            self.create_interface(id.as_str(), m.interfaces[j].0.as_str(), m.interfaces[j].1.interface_type)?;
            j += 1;
        }
        let mut j: usize = 0;
        while j < m.interfaces.len()
            invariant
                self.wf(),
                self.state == state0,
                self.name == name0,
                j <= m.interfaces@.len(),
                self.nodes@ == nodes1,
                self.interfaces@.len() == ifs0 + m.interfaces@.len(),
                self.links@ == links0 && self.services@ == services0 && self.instructions@ == instructions0,
            decreases m.interfaces@.len() - j,
        {
            if let Some(parent) = &m.interfaces[j].1.split_parent {
                let child = self.interface_named(id.as_str(), m.interfaces[j].0.as_str())?.id.clone();
                let parent_id = self.interface_named(id.as_str(), parent.as_str())?.id.clone();
                let nested = match entry(&m.interfaces, parent.as_str()) {
                    Some(p) => m.interfaces[p].1.split_parent.is_some(),
                    None => false,
                };
                if str_eq(parent.as_str(), m.interfaces[j].0.as_str()) || nested {
                    return Err(invalid("cyclic or nested breakout"));
                }
                self.link_lane(child, parent_id);
            }
            j += 1;
        }
        Ok(())
    }

    /// Records `child` as a lane of `parent`.
    fn link_lane(&mut self, child: String, parent: String)
        requires
            old(self).wf(),
        ensures
            final(self).wf(),
            final(self).state == old(self).state,
            final(self).name == old(self).name,
            *final(self) == (Simulation { interfaces: final(self).interfaces, ..*old(self) }),
            final(self).interfaces@.len() == old(self).interfaces@.len(),
            forall|x: int| 0 <= x < old(self).interfaces@.len() ==> {
                let o = old(self).interfaces@[x];
                let n = #[trigger] final(self).interfaces@[x];
                &&& n.id == o.id && n.node == o.node && n.name == o.name && n.interface_type == o.interface_type
                &&& n.mac_address == o.mac_address && n.connection == o.connection
                &&& n.split_parent == (if o.id@ == child@ { Some(parent) } else { o.split_parent })
                &&& n.split_children@ == (if o.id@ == parent@ { o.split_children@.push(child) } else { o.split_children@ })
            },
    {
        let ghost o = self.interfaces@;
        if let Some(c) = find(&self.interfaces, child.as_str()) {
            let ghost a = *self;
            self.interfaces[c].split_parent = Some(parent.clone());
            proof {
                lemma_same_interfaces(a, *self);
                assert forall|x: int| 0 <= x < o.len() && x != c implies o[x].id@ != child@ by {
                    assert(o[x].key() != o[c as int].key());
                }
            }
        }
        let ghost m = self.interfaces@;
        assert(m.len() == o.len());
        assert forall|x: int| 0 <= x < o.len() implies (#[trigger] m[x]).id == o[x].id && m[x].node == o[x].node
            && m[x].name == o[x].name && m[x].interface_type == o[x].interface_type
            && m[x].mac_address == o[x].mac_address && m[x].connection == o[x].connection
            && m[x].split_children == o[x].split_children
            && m[x].split_parent == (if o[x].id@ == child@ { Some(parent) } else { o[x].split_parent }) by {
            if !has_key(o, child@) {
                assert(o[x].key() != child@);
            }
        }
        if let Some(p) = find(&self.interfaces, parent.as_str()) {
            let ghost a = *self;
            let mut children = crate::model::clone_strings(&self.interfaces[p].split_children);
            children.push(child);
            self.interfaces[p].split_children = children;
            proof {
                lemma_same_interfaces(a, *self);
                assert forall|x: int| 0 <= x < m.len() && x != p implies m[x].id@ != parent@ by {
                    assert(m[x].key() != m[p as int].key());
                }
            }
        }
        proof {
            let f = self.interfaces@;
            assert forall|x: int| 0 <= x < o.len() implies {
                let n = #[trigger] f[x];
                &&& n.id == o[x].id && n.node == o[x].node && n.name == o[x].name && n.interface_type == o[x].interface_type
                &&& n.mac_address == o[x].mac_address && n.connection == o[x].connection
                &&& n.split_parent == (if o[x].id@ == child@ { Some(parent) } else { o[x].split_parent })
                &&& n.split_children@ == (if o[x].id@ == parent@ { o[x].split_children@.push(child) } else { o[x].split_children@ })
            } by {
                assert(m[x].id == o[x].id);
                if !has_key(m, parent@) {
                    assert(m[x].key() != parent@);
                }
            }
        }
    }
}

/// An interface's breakout shape is one that a simulation may hold.
pub open spec fn breakout_ok(i: Interface) -> bool {
    lanes_valid(i) && (i.split_parent is Some ==> i.interface_type == InterfaceType::Data)
}

/// Creating a link adds one link and leaves the services and instructions.
proof fn lemma_link_counts(a: Simulation, b: Simulation, id: Seq<char>, x: Seq<char>, y: Seq<char>, spec: LinkSpec)
    requires
        crate::api::link_created(a, b, id, x, y, spec),
    ensures
        b.links@.len() == a.links@.len() + 1,
        b.services@.len() == a.services@.len(),
        b.instructions@.len() == a.instructions@.len(),
        b.nodes@.len() == a.nodes@.len(),
{
    let e = choose|e: [String; 2]| e[0]@ == x && e[1]@ == y && #[trigger] crate::api::link_added(a, b, id, e, spec);
    let (mid, l) = choose|mid: Simulation, l: Link| {
        &&& l.id@ == id && l.interfaces[0]@ == e[0]@ && l.interfaces[1]@ == e[1]@ && l.spec == spec
        &&& mid.links@ == a.links@.push(l)
        &&& mid.interfaces@ == a.interfaces@
            .update(key_index(a.interfaces@, e[0]@), Interface { connection: Some(e[1]), ..keyed(a.interfaces@, e[0]@) })
            .update(key_index(a.interfaces@, e[1]@), Interface { connection: Some(e[0]), ..keyed(a.interfaces@, e[1]@) })
        &&& mid.nodes == a.nodes && mid.services == a.services && mid.instructions == a.instructions
        &&& mid.checkpoints == a.checkpoints && mid.available == a.available && mid.history == a.history
        &&& crate::api::same_but_topology(a, mid)
        &&& crate::model::recorded(mid, b, "link created"@)
    };
}

/// After a node is added under `spec`, one node more is there and one is named
/// as the spec says; none was before.
proof fn lemma_node_named(a: Simulation, b: Simulation, id: Seq<char>, spec: NodeSpec)
    requires
        crate::api::node_added(a, b, id, spec),
        !crate::api::name_taken(a.nodes@, spec.name@),
    ensures
        b.nodes@.len() == a.nodes@.len() + 1,
        b.interfaces@ == a.interfaces@,
        b.links@ == a.links@ && b.services@ == a.services@ && b.instructions@ == a.instructions@,
        b.nodes@[a.nodes@.len() as int].spec == spec,
        crate::api::name_taken(b.nodes@, spec.name@),
{
    let (mid, n) = choose|mid: Simulation, n: Node| {
        &&& crate::api::new_node(n, id, a.id, spec)
        &&& crate::model::same_but_nodes(a, mid)
        &&& crate::api::leases_assigned(a.nodes@.push(n), mid.nodes@, a.auto_oob_enabled && a.enable_dhcp)
        &&& crate::model::recorded(mid, b, "node created"@)
    };
    let k = a.nodes@.len() as int;
    assert(a.nodes@.push(n)[k] == n);
    assert(crate::api::same_but_lease(a.nodes@.push(n)[k], mid.nodes@[k]));
    assert(b.nodes@[k].spec.name@ == spec.name@);
}

/// Changing an interface in place but for its identity, node and name keeps the invariant.
proof fn lemma_same_interfaces(a: Simulation, b: Simulation)
    requires
        a.wf(),
        b == (Simulation { interfaces: b.interfaces, ..a }),
        b.interfaces@.len() == a.interfaces@.len(),
        forall|x: int| 0 <= x < a.interfaces@.len() ==> (#[trigger] b.interfaces@[x]).id == a.interfaces@[x].id
            && b.interfaces@[x].node == a.interfaces@[x].node && b.interfaces@[x].name == a.interfaces@[x].name,
    ensures
        b.wf(),
{
    assert forall|x: int| 0 <= x < b.interfaces@.len() implies #[trigger] b.interfaces@[x].key() == a.interfaces@[x].key() by {
        assert(b.interfaces@[x].id == a.interfaces@[x].id);
    }
    crate::keyed::lemma_same_keys(a.interfaces@, b.interfaces@);
    assert forall|x: int| 0 <= x < b.interfaces@.len() implies has_key(b.nodes@, #[trigger] b.interfaces@[x].node@) by {
        assert(b.interfaces@[x].node == a.interfaces@[x].node);
    }
    assert forall|x: int, y: int| 0 <= x < b.interfaces@.len() && 0 <= y < b.interfaces@.len() && x != y
        && b.interfaces@[x].node@ == b.interfaces@[y].node@
        implies b.interfaces@[x].name@ != b.interfaces@[y].name@ by {
        assert(b.interfaces@[x].node == a.interfaces@[x].node && b.interfaces@[y].node == a.interfaces@[y].node);
    }
    assert forall|x: int| 0 <= x < b.links@.len() implies {
        &&& has_key(b.interfaces@, #[trigger] b.links@[x].interfaces[0]@)
        &&& has_key(b.interfaces@, b.links@[x].interfaces[1]@)
    } by {
        assert(has_key(a.interfaces@, b.links@[x].interfaces[0]@));
        assert(has_key(a.interfaces@, b.links@[x].interfaces[1]@));
    }
    assert forall|x: int| 0 <= x < b.services@.len() implies has_key(b.interfaces@, #[trigger] b.services@[x].interface@) by {
        assert(has_key(a.interfaces@, b.services@[x].interface@));
    }
}

/// A lane count and type a breakout may have.
pub open spec fn lanes_valid(i: Interface) -> bool {
    i.split_children@.len() == 0
        || ((i.split_children@.len() == 2 || i.split_children@.len() == 4 || i.split_children@.len() == 8)
            && i.interface_type == InterfaceType::Data)
}

impl Simulation {
    /// Adds the manifest's links, services, instructions, OOB settings and ZTP script.
    fn import_rest(&mut self, manifest: &Manifest) -> (r: Result<()>)
        requires
            old(self).wf(),
            old(self).state == State::Inactive,
        ensures
            final(self).wf(),
            r is Ok ==> final(self).state == State::Inactive && final(self).name == old(self).name,
            (exists|i: int| 0 <= i < old(self).interfaces@.len() && !breakout_ok(#[trigger] old(self).interfaces@[i]))
                ==> r is Err && r->Err_0 is Invalid,
            r is Ok ==> final(self).links@.len() == old(self).links@.len() + manifest.content.links@.len()
                && final(self).services@.len() == old(self).services@.len() + manifest.content.services@.len()
                && final(self).instructions@.len() == old(self).instructions@.len()
                    + manifest.content.instructions@.len(),
            r is Ok ==> final(self).auto_oob_enabled == manifest.content.oob
                && final(self).enable_dhcp == (manifest.content.oob && manifest.content.enable_dhcp),
            r is Ok ==> final(self).ztp_script == (if manifest.ztp is Some { manifest.ztp } else { old(self).ztp_script }),
            r is Ok ==> final(self).nodes@.len() == old(self).nodes@.len(),
            (forall|i: int| 0 <= i < old(self).interfaces@.len() ==> breakout_ok(#[trigger] old(self).interfaces@[i]))
                && manifest.content.links@.len() == 0 && manifest.content.services@.len() == 0
                && manifest.content.instructions@.len() == 0
                && !(manifest.content.oob && manifest.content.enable_dhcp)
                && (manifest.ztp is Some ==> old(self).ztp_script is None)
                ==> r is Ok,
    {
        let ghost name0 = self.name;
        let ghost nodes0 = self.nodes@.len();
        let ghost ztp0 = self.ztp_script;
        let ghost links0 = self.links@.len();
        let ghost services0 = self.services@.len();
        let ghost instructions0 = self.instructions@.len();
        let mut i: usize = 0;
        while i < self.interfaces.len()
            invariant
                i <= self.interfaces@.len(),
                forall|q: int| 0 <= q < i ==> breakout_ok(#[trigger] self.interfaces@[q]),
            decreases self.interfaces@.len() - i,
        {
            let x = &self.interfaces[i];
            let n = x.split_children.len();
            if n > 0 && (!(n == 2 || n == 4 || n == 8) || x.interface_type != InterfaceType::Data) {
                return Err(invalid("invalid breakout lane count or type"));
            }
            if x.split_parent.is_some() && x.interface_type != InterfaceType::Data {
                return Err(invalid("breakout lanes must be data interfaces"));
            }
            i += 1;
        }
        let mut i: usize = 0;
        while i < manifest.content.links.len()
            invariant
                self.wf(),
                self.state == State::Inactive,
                self.name == name0,
                self.ztp_script == ztp0,
                i <= manifest.content.links@.len(),
                self.links@.len() == links0 + i,
                self.services@.len() == services0,
                self.instructions@.len() == instructions0,
                self.nodes@.len() == nodes0,
            decreases manifest.content.links@.len() - i,
        {
            let a = self.endpoint(manifest.content.links[i].endpoints[0].as_str())?;
            let b = self.endpoint(manifest.content.links[i].endpoints[1].as_str())?;
            let ia = self.interfaces[a].id.clone();
            let ib = self.interfaces[b].id.clone();
            let ghost before = *self;
            let id = self.create_link([ia.as_str(), ib.as_str()], manifest.content.links[i].condition)?;
            proof { lemma_link_counts(before, *self, id@, ia@, ib@, manifest.content.links@[i as int].condition); }
            i += 1;
        }
        let mut i: usize = 0;
        while i < manifest.content.services.len()
            invariant
                self.wf(),
                self.state == State::Inactive,
                self.name == name0,
                self.ztp_script == ztp0,
                i <= manifest.content.services@.len(),
                self.links@.len() == links0 + manifest.content.links@.len(),
                self.services@.len() == services0 + i,
                self.instructions@.len() == instructions0,
                self.nodes@.len() == nodes0,
            decreases manifest.content.services@.len() - i,
        {
            let v = &manifest.content.services[i];
            let x = self.endpoint(v.interface.as_str())?;
            let id = self.interfaces[x].id.clone();
            let ghost before = *self;
            let sid = self.create_service(id.as_str(), v.name.as_str(), v.node_port, v.service_type)?;
            proof {
                let mid = choose|mid: Simulation| #[trigger] crate::ops::service_pushed(before, mid, sid@, id@, v.name@,
                    v.node_port, v.service_type) && crate::model::recorded(mid, *self, "service registered"@);
                assert(mid.links == before.links && mid.instructions == before.instructions && mid.nodes == before.nodes);
            }
            i += 1;
        }
        let mut i: usize = 0;
        while i < manifest.content.instructions.len()
            invariant
                self.wf(),
                self.state == State::Inactive,
                self.name == name0,
                self.ztp_script == ztp0,
                i <= manifest.content.instructions@.len(),
                self.links@.len() == links0 + manifest.content.links@.len(),
                self.services@.len() == services0 + manifest.content.services@.len(),
                self.instructions@.len() == instructions0 + i,
                self.nodes@.len() == nodes0,
            decreases manifest.content.instructions@.len() - i,
        {
            let x = &manifest.content.instructions[i];
            let node = self.node_named(x.node.as_str())?.id.clone();
            let data = crate::checkpoint::clone_data(&x.data);
            let ghost before = *self;
            let ghost d = data;
            let iid = self.create_instruction(node.as_str(), data, x.run_again_on_rebuild)?;
            proof {
                let mid = choose|mid: Simulation| #[trigger] crate::instr::instruction_pushed(before, mid, iid@, node@, d,
                    x.run_again_on_rebuild) && crate::model::recorded(mid, *self, "node instruction created"@);
                assert(mid.links == before.links && mid.services == before.services && mid.nodes == before.nodes);
            }
            i += 1;
        }
        let ghost before = *self;
        self.set_auto_oob(manifest.content.oob, manifest.content.enable_dhcp)?;
        proof {
            let m = choose|m: Simulation| #[trigger] crate::model::recorded(m, *self, "OOB updated"@)
                && m.auto_oob_enabled == manifest.content.oob
                && m.enable_dhcp == (manifest.content.oob && manifest.content.enable_dhcp)
                && crate::api::leases_assigned(before.nodes@, m.nodes@, manifest.content.oob && manifest.content.enable_dhcp)
                && m == (Simulation { nodes: m.nodes, auto_oob_enabled: manifest.content.oob,
                    enable_dhcp: manifest.content.oob && manifest.content.enable_dhcp, ..before });
            assert(m.links == before.links && m.services == before.services && m.instructions == before.instructions);
            assert(self.state == State::Inactive && self.ztp_script == ztp0);
        }
        if let Some(z) = &manifest.ztp {
            self.create_ztp_script(z.clone())?;
        }
        Ok(())
    }
}

impl Simulator {
    /// Builds the simulation a manifest describes, not yet part of any session.
    pub(crate) fn build(manifest: &Manifest) -> (r: Result<Simulation>)
        ensures
            r matches Ok(s) ==> s.wf() && s.state == State::Inactive && s.name@ == manifest.name@,
            crate::api::blank(manifest.name@) ==> r is Err && r->Err_0 is Invalid,
            (exists|i: int| 0 <= i < manifest.content.nodes@.len() && !fields_known(#[trigger] manifest.content.nodes@[i].1))
                ==> r is Err,
            bare_manifest(*manifest) ==> r is Ok,
            r matches Ok(s) ==> built_from(s, *manifest),
    {
        let mut staging = Simulator::new();
        staging.create(manifest.name.as_str())?;
        let mut sim = staging.simulations.pop().unwrap();
        proof { assert(sim.wf()); }
        let mut i: usize = 0;
        while i < manifest.content.nodes.len()
            invariant
                sim.wf(),
                sim.state == State::Inactive,
                sim.name@ == manifest.name@,
                i <= manifest.content.nodes@.len(),
                sim.nodes@.len() == i,
                sim.links@.len() == 0 && sim.services@.len() == 0 && sim.instructions@.len() == 0,
                forall|q: int| 0 <= q < i ==> fields_known(#[trigger] manifest.content.nodes@[q].1),
                i == 0 ==> sim.interfaces@.len() == 0 && sim.ztp_script is None,
            decreases manifest.content.nodes@.len() - i,
        {
            sim.import_node(manifest.content.nodes[i].0.as_str(), &manifest.content.nodes[i].1)?;
            i += 1;
        }
        proof {
            assert(manifest.content.nodes@.len() == 0 ==> sim.interfaces@.len() == 0);
        }
        sim.import_rest(manifest)?;
        Ok(sim)
    }

    /// Adds a finished simulation to the session unless its identifier is taken.
    fn enroll(&mut self, sim: Simulation) -> (r: Result<String>)
        requires
            old(self).wf(),
            sim.wf(),
            old(self).simulations@.len() < old(self).max_simulations,
        ensures
            final(self).wf(),
            final(self).max_simulations == old(self).max_simulations,
            r is Err ==> *final(self) == *old(self) && r->Err_0 is Conflict,
            r is Ok <==> !has_key(old(self).simulations@, sim.id@),
            r matches Ok(key) ==> key@ == sim.id@ && final(self).simulations@ == old(self).simulations@.push(sim),
    {
        let key = sim.id.clone();
        if find(&self.simulations, key.as_str()).is_some() {
            return Err(conflict("simulation identifier collision"));
        }
        let ghost before = self.simulations@;
        proof { crate::keyed::lemma_push_key(before, sim); }
        self.simulations.push(sim);
        proof {
            assert forall|x: int| 0 <= x < self.simulations@.len() implies (#[trigger] self.simulations@[x]).wf() by {
                if x < before.len() {
                    assert(self.simulations@[x] == before[x]);
                }
            }
        }
        Ok(key)
    }

    /// Imports a manifest as a new simulation, through the same validated edits as
    /// single calls. On any error nothing is added.
    pub fn import(&mut self, manifest: Manifest, attempt_start: bool) -> (r: Result<String>)
        requires
            old(self).wf(),
        ensures
            final(self).wf(),
            final(self).max_simulations == old(self).max_simulations,
            r is Err ==> *final(self) == *old(self),
            old(self).simulations@.len() >= old(self).max_simulations ==> r is Err && r->Err_0 is Conflict,
            old(self).simulations@.len() < old(self).max_simulations && !json_format(manifest.format@)
                ==> r is Err && r->Err_0 is Unsupported,
            r is Ok ==> old(self).simulations@.len() < old(self).max_simulations && json_format(manifest.format@),
            r matches Ok(key) ==> {
                let s = final(self).simulations@.last();
                &&& !has_key(old(self).simulations@, key@)
                &&& final(self).simulations@ == old(self).simulations@.push(s)
                &&& s.id@ == key@ && s.name@ == manifest.name@
                &&& s.state == (if attempt_start { State::Active } else { State::Inactive })
                &&& exists|s0: Simulation| #[trigger] built_from(s0, manifest)
                    && (if attempt_start { crate::lifecycle::started(s0, s, None) } else { s == s0 })
            },
            crate::api::blank(manifest.name@) && old(self).simulations@.len() < old(self).max_simulations
                && json_format(manifest.format@) ==> r is Err && r->Err_0 is Invalid,
            bare_manifest(manifest) && !attempt_start && old(self).simulations@.len() < old(self).max_simulations
                && json_format(manifest.format@) ==> r is Ok || (r->Err_0 is Conflict && old(self).simulations@.len() > 0),
    {
        self.check_capacity()?;
        if !is_json_format(manifest.format.as_str()) {
            return Err(unsupported("manifest format"));
        }
        let mut sim = Self::build(&manifest)?;
        let ghost s0 = sim;
        if attempt_start {
            sim.start(None)?;
        }
        let ghost s1 = sim;
        let r = self.enroll(sim);
        proof {
            if r is Ok {
                assert(built_from(s0, manifest));
                assert(self.simulations@.last() == s1);
            }
        }
        r
    }
}

/// Changing nodes in place but for their identity and specification keeps the invariant.
proof fn lemma_same_nodes(a: Simulation, b: Simulation)
    requires
        a.wf(),
        b == (Simulation { nodes: b.nodes, ..a }),
        b.nodes@.len() == a.nodes@.len(),
        forall|x: int| 0 <= x < a.nodes@.len() ==> (#[trigger] b.nodes@[x]).id == a.nodes@[x].id
            && b.nodes@[x].spec == a.nodes@[x].spec && crate::model::keys_unique(b.nodes@[x].runtime.files@),
    ensures
        b.wf(),
{
    assert forall|x: int| 0 <= x < b.nodes@.len() implies #[trigger] b.nodes@[x].key() == a.nodes@[x].key() by {
        assert(b.nodes@[x].id == a.nodes@[x].id);
    }
    crate::keyed::lemma_same_keys(a.nodes@, b.nodes@);
    assert forall|x: int, y: int| 0 <= x < b.nodes@.len() && 0 <= y < b.nodes@.len() && x != y
        implies b.nodes@[x].spec.name@ != b.nodes@[y].spec.name@ by {
        assert(b.nodes@[x].spec == a.nodes@[x].spec && b.nodes@[y].spec == a.nodes@[y].spec);
    }
    assert forall|x: int| 0 <= x < b.interfaces@.len() implies has_key(b.nodes@, #[trigger] b.interfaces@[x].node@) by {
        assert(has_key(a.nodes@, b.interfaces@[x].node@));
    }
    assert forall|x: int| 0 <= x < b.instructions@.len() implies has_key(b.nodes@, #[trigger] b.instructions@[x].node@) by {
        assert(has_key(a.nodes@, b.instructions@[x].node@));
    }
}

/// Changing instructions in place but for their identity and node keeps the invariant.
proof fn lemma_same_instructions(a: Simulation, b: Simulation)
    requires
        a.wf(),
        b == (Simulation { instructions: b.instructions, ..a }),
        b.instructions@.len() == a.instructions@.len(),
        forall|x: int| 0 <= x < a.instructions@.len() ==> (#[trigger] b.instructions@[x]).id == a.instructions@[x].id
            && b.instructions@[x].node == a.instructions@[x].node,
    ensures
        b.wf(),
{
    assert forall|x: int| 0 <= x < b.instructions@.len() implies #[trigger] b.instructions@[x].key() == a.instructions@[x].key() by {
        assert(b.instructions@[x].id == a.instructions@[x].id);
    }
    crate::keyed::lemma_same_keys(a.instructions@, b.instructions@);
    assert forall|x: int| 0 <= x < b.instructions@.len() implies has_key(b.nodes@, #[trigger] b.instructions@[x].node@) by {
        assert(has_key(a.nodes@, a.instructions@[x].node@));
    }
}

/// What a clone carries over of one instruction: node name, data, rebuild flag, state.
pub struct SavedInstruction {
    pub node: String,
    pub data: InstructionData,
    pub run_again_on_rebuild: bool,
    pub state: InstructionState,
}

impl Simulation {
    /// Gives the node named `name` a management address and, if given, a runtime.
    fn adopt(&mut self, name: &str, management_ip: Option<String>, runtime: Option<NodeRuntime>)
        requires
            old(self).wf(),
            runtime matches Some(t) ==> crate::model::keys_unique(t.files@),
        ensures
            final(self).wf(),
            final(self).state == old(self).state,
            final(self).name == old(self).name,
            *final(self) == (Simulation { nodes: final(self).nodes, ..*old(self) }),
            final(self).nodes@.len() == old(self).nodes@.len(),
            forall|k: int| 0 <= k < old(self).nodes@.len() ==> #[trigger] final(self).nodes@[k] == (
                if old(self).nodes@[k].spec.name@ == name@ {
                    Node {
                        management_ip: management_ip,
                        runtime: match runtime { Some(t) => t, None => old(self).nodes@[k].runtime },
                        ..old(self).nodes@[k]
                    }
                } else {
                    old(self).nodes@[k]
                }),
    {
        let mut i: usize = 0;
        while i < self.nodes.len()
            invariant
                *self == *old(self),
                i <= self.nodes@.len(),
                forall|k: int| 0 <= k < i ==> old(self).nodes@[k].spec.name@ != name@,
            decreases self.nodes@.len() - i,
        {
            if str_eq(self.nodes[i].spec.name.as_str(), name) {
                let ghost a = *self;
                self.nodes[i].management_ip = management_ip;
                if let Some(t) = runtime {
                    self.nodes[i].runtime = t;
                }
                proof { lemma_same_nodes(a, *self); }
                return;
            }
            i += 1;
        }
    }

    /// Gives each instruction the saved state of an unused saved instruction with the
    /// same node name, data and rebuild flag.
    fn restore_states(&mut self, saved: Vec<SavedInstruction>)
        requires
            old(self).wf(),
        ensures
            final(self).wf(),
            final(self).state == old(self).state,
            final(self).name == old(self).name,
            *final(self) == (Simulation { instructions: final(self).instructions, ..*old(self) }),
            final(self).instructions@.len() == old(self).instructions@.len(),
            forall|j: int| 0 <= j < old(self).instructions@.len() ==> #[trigger] final(self).instructions@[j] == (Instruction {
                state: restored_states(old(self).instructions@, old(self).nodes@, saved@)[j],
                ..old(self).instructions@[j]
            }),
    {
        let ghost ins = self.instructions@;
        let ghost nodes = self.nodes@;
        let ghost all = restored_states(ins, nodes, saved@);
        proof {
            lemma_restored_len(ins, nodes, saved@);
            assert(ins.subrange(0, ins.len() as int) =~= ins);
            assert(all.subrange(0, ins.len() as int) =~= all);
        }
        let mut saved = saved;
        let mut j: usize = 0;
        while j < self.instructions.len()
            invariant
                self.wf(),
                *self == (Simulation { instructions: self.instructions, ..*old(self) }),
                ins == old(self).instructions@,
                nodes == old(self).nodes@,
                all.len() == ins.len(),
                self.instructions@.len() == ins.len(),
                j <= ins.len(),
                forall|x: int| 0 <= x < j ==> #[trigger] self.instructions@[x] == (Instruction { state: all[x], ..ins[x] }),
                forall|x: int| j <= x < ins.len() ==> #[trigger] self.instructions@[x] == ins[x],
                all.subrange(j as int, ins.len() as int) == restored_states(ins.subrange(j as int, ins.len() as int), nodes, saved@),
            decreases ins.len() - j,
        {
            let ghost rest = ins.subrange(j as int, ins.len() as int);
            proof {
                lemma_restored_len(rest.drop_first(), nodes, saved@);
                assert(rest[0] == ins[j as int]);
                assert(rest.drop_first() =~= ins.subrange(j + 1, ins.len() as int));
            }
            if let Some(n) = find(&self.nodes, self.instructions[j].node.as_str()) {
                proof { lemma_index_of_key(self.nodes@, n as int); }
                let mut p: usize = 0;
                let mut hit: Option<usize> = None;
                while p < saved.len()
                    invariant
                        p <= saved@.len(),
                        n < nodes.len(),
                        nodes == self.nodes@,
                        j < self.instructions@.len(),
                        self.instructions@[j as int] == ins[j as int],
                        keyed(nodes, ins[j as int].node@) == nodes[n as int],
                        forall|q: int| 0 <= q < p ==> !matches_saved(#[trigger] saved@[q], ins[j as int], nodes),
                        hit matches Some(h) ==> h == p && p < saved@.len() && matches_saved(saved@[h as int], ins[j as int], nodes),
                    decreases saved@.len() - p,
                {
                    let x = &saved[p];
                    if str_eq(x.node.as_str(), self.nodes[n].spec.name.as_str())
                        && eq_data(&x.data, &self.instructions[j].data)
                        && x.run_again_on_rebuild == self.instructions[j].run_again_on_rebuild {
                        hit = Some(p);
                        break;
                    }
                    p += 1;
                }
                proof {
                    match hit {
                        Some(h) => lemma_first_match(saved@, ins[j as int], nodes, h as int),
                        None => lemma_first_match(saved@, ins[j as int], nodes, -1),
                    }
                }
                if let Some(h) = hit {
                    let ghost before = saved@;
                    let x = saved.remove(h);
                    let ghost a = *self;
                    self.instructions[j].state = x.state;
                    proof {
                        lemma_same_instructions(a, *self);
                        assert(all.subrange(j + 1, ins.len() as int) =~= all.subrange(j as int, ins.len() as int).drop_first());
                        assert(all[j as int] == all.subrange(j as int, ins.len() as int)[0]);
                    }
                } else {
                    proof {
                        assert(all.subrange(j + 1, ins.len() as int) =~= all.subrange(j as int, ins.len() as int).drop_first());
                        assert(all[j as int] == all.subrange(j as int, ins.len() as int)[0]);
                        assert(self.instructions@[j as int] == (Instruction { state: all[j as int], ..ins[j as int] }));
                    }
                }
            } else {
                proof {
                    assert(all.subrange(j + 1, ins.len() as int) =~= all.subrange(j as int, ins.len() as int).drop_first());
                    assert(all[j as int] == all.subrange(j as int, ins.len() as int)[0]);
                    assert(self.instructions@[j as int] == (Instruction { state: all[j as int], ..ins[j as int] }));
                }
            }
            j += 1;
        }
    }
}

/// The saved instruction `s` is one for instruction `i`: same node name, data and
/// rebuild flag.
pub open spec fn matches_saved(s: SavedInstruction, i: Instruction, nodes: Seq<Node>) -> bool {
    &&& s.node@ == keyed(nodes, i.node@).spec.name@
    &&& same_data(s.data, i.data)
    &&& s.run_again_on_rebuild == i.run_again_on_rebuild
}

/// Position of the first saved instruction for `i`, or -1.
pub open spec fn first_match(saved: Seq<SavedInstruction>, i: Instruction, nodes: Seq<Node>) -> int
    decreases saved.len(),
{
    if saved.len() == 0 {
        -1
    } else if matches_saved(saved[0], i, nodes) {
        0
    } else {
        let r = first_match(saved.drop_first(), i, nodes);
        if r < 0 { -1 } else { r + 1 }
    }
}

/// The states instructions end with: in order, each on an existing node takes the
/// state of the first saved instruction for it still unused, which is then used up.
pub open spec fn restored_states(ins: Seq<Instruction>, nodes: Seq<Node>, saved: Seq<SavedInstruction>) -> Seq<InstructionState>
    decreases ins.len(),
{
    if ins.len() == 0 {
        Seq::empty()
    } else {
        let h = if has_key(nodes, ins[0].node@) { first_match(saved, ins[0], nodes) } else { -1 };
        if h < 0 {
            seq![ins[0].state] + restored_states(ins.drop_first(), nodes, saved)
        } else {
            seq![saved[h].state] + restored_states(ins.drop_first(), nodes, saved.remove(h))
        }
    }
}

proof fn lemma_restored_len(ins: Seq<Instruction>, nodes: Seq<Node>, saved: Seq<SavedInstruction>)
    ensures
        restored_states(ins, nodes, saved).len() == ins.len(),
    decreases ins.len(),
{
    if ins.len() > 0 {
        let h = if has_key(nodes, ins[0].node@) { first_match(saved, ins[0], nodes) } else { -1 };
        if h < 0 {
            lemma_restored_len(ins.drop_first(), nodes, saved);
        } else {
            lemma_restored_len(ins.drop_first(), nodes, saved.remove(h));
        }
    }
}

proof fn lemma_first_match(saved: Seq<SavedInstruction>, i: Instruction, nodes: Seq<Node>, h: int)
    requires
        -1 <= h < saved.len(),
        h >= 0 ==> matches_saved(saved[h], i, nodes),
        forall|q: int| 0 <= q < (if h < 0 { saved.len() as int } else { h }) ==> !matches_saved(#[trigger] saved[q], i, nodes),
    ensures
        first_match(saved, i, nodes) == h,
    decreases saved.len(),
{
    if saved.len() > 0 && h != 0 {
        assert(!matches_saved(saved[0], i, nodes));
        let t = saved.drop_first();
        assert forall|q: int| 0 <= q < (if h < 0 { t.len() as int } else { h - 1 }) implies !matches_saved(#[trigger] t[q], i, nodes) by {
            assert(t[q] == saved[q + 1]);
        }
        lemma_first_match(t, i, nodes, if h < 0 { -1 } else { h - 1 });
    }
}

impl Simulator {
    /// Copies a simulation under a new name through export and import, keeping
    /// management addresses and, from a checkpoint that fits, node runtimes and
    /// instruction states. On any error nothing is added.
    pub fn clone_simulation(&mut self, source: &str, name: &str, checkpoint: Option<&str>, attempt_start: bool)
        -> (r: Result<String>)
        requires
            old(self).wf(),
        ensures
            final(self).wf(),
            final(self).max_simulations == old(self).max_simulations,
            r is Err ==> *final(self) == *old(self),
            !has_key(old(self).simulations@, source@) ==> r is Err && r->Err_0 is NotFound,
            has_key(old(self).simulations@, source@) && !parents_present(keyed(old(self).simulations@, source@))
                ==> r is Err && r->Err_0 is NotFound,
            has_key(old(self).simulations@, source@) && parents_present(keyed(old(self).simulations@, source@))
                && (checkpoint matches Some(c) && !has_key(keyed(old(self).simulations@, source@).checkpoints@, c@))
                ==> r is Err && r->Err_0 is NotFound,
            has_key(old(self).simulations@, source@) && parents_present(keyed(old(self).simulations@, source@))
                && (checkpoint matches Some(c) && has_key(keyed(old(self).simulations@, source@).checkpoints@, c@)
                && !checkpoint_fits(keyed(keyed(old(self).simulations@, source@).checkpoints@, c@),
                    keyed(old(self).simulations@, source@)))
                ==> r is Err && r->Err_0 is Conflict,
            r is Ok ==> {
                let src = keyed(old(self).simulations@, source@);
                &&& has_key(old(self).simulations@, source@) && parents_present(src)
                &&& checkpoint matches Some(c) ==> has_key(src.checkpoints@, c@)
                    && checkpoint_fits(keyed(src.checkpoints@, c@), src)
                &&& old(self).simulations@.len() < old(self).max_simulations
            },
            r matches Ok(key) ==> {
                let s = final(self).simulations@.last();
                &&& !has_key(old(self).simulations@, key@)
                &&& final(self).simulations@ == old(self).simulations@.push(s)
                &&& s.id@ == key@ && s.name@ == name@
                &&& s.state == (if attempt_start { State::Active } else { State::Inactive })
                &&& !attempt_start ==> {
                    let src = keyed(old(self).simulations@, source@);
                    &&& s.nodes@.len() == src.nodes@.len() && s.links@.len() == src.links@.len()
                    &&& s.services@.len() == src.services@.len()
                    &&& s.auto_oob_enabled == src.auto_oob_enabled && s.enable_dhcp == (src.auto_oob_enabled && src.enable_dhcp)
                }
            },
    {
        let k = match find(&self.simulations, source) {
            Some(k) => k,
            None => return Err(Error::NotFound(source.to_owned())),
        };
        proof { lemma_index_of_key(self.simulations@, k as int); }
        let original = &self.simulations[k];
        let mut manifest = original.export()?;
        manifest.name = name.to_owned();
        let mut saved: Option<usize> = None;
        if let Some(key) = checkpoint {
            let c = match find(&original.checkpoints, key) {
                Some(c) => c,
                None => return Err(Error::NotFound(key.to_owned())),
            };
            proof { lemma_index_of_key(original.checkpoints@, c as int); }
            original.validate_checkpoint(c)?;
            saved = Some(c);
        }
        self.check_capacity()?;
        let mut sim = Self::build(&manifest)?;
        let original = &self.simulations[k];
        let ghost counts = (sim.nodes@.len(), sim.links@.len(), sim.services@.len(), sim.auto_oob_enabled, sim.enable_dhcp);
        proof {
            assert(counts == (original.nodes@.len(), original.links@.len(), original.services@.len(),
                original.auto_oob_enabled, original.auto_oob_enabled && original.enable_dhcp));
        }
        let mut i: usize = 0;
        while i < original.nodes.len()
            invariant
                sim.wf(),
                sim.state == State::Inactive,
                sim.name@ == name@,
                original.wf(),
                saved matches Some(c) ==> c < original.checkpoints@.len()
                    && checkpoint_fits(original.checkpoints@[c as int], *original),
                i <= original.nodes@.len(),
                counts == (sim.nodes@.len(), sim.links@.len(), sim.services@.len(), sim.auto_oob_enabled, sim.enable_dhcp),
            decreases original.nodes@.len() - i,
        {
            let n = &original.nodes[i];
            let runtime = match saved {
                Some(c) => {
                    proof {
                        assert(crate::model::keys_unique(original.checkpoints@[c as int].runtime@[i as int].1.files@));
                    }
                    Some(clone_runtime(&original.checkpoints[c].runtime[i].1))
                },
                None => None,
            };
            sim.adopt(n.spec.name.as_str(), crate::model::clone_opt_string(&n.management_ip), runtime);
            i += 1;
        }
        if let Some(c) = saved {
            let cp = &original.checkpoints[c];
            let mut states: Vec<SavedInstruction> = Vec::new();
            let mut j: usize = 0;
            while j < original.instructions.len()
                invariant
                    original.wf(),
                    c < original.checkpoints@.len(),
                    *cp == original.checkpoints@[c as int],
                    checkpoint_fits(*cp, *original),
                    j <= original.instructions@.len(),
                decreases original.instructions@.len() - j,
            {
                let x = &original.instructions[j];
                if let Some(n) = find(&original.nodes, x.node.as_str()) {
                    states.push(SavedInstruction {
                        node: original.nodes[n].spec.name.clone(),
                        data: crate::checkpoint::clone_data(&x.data),
                        run_again_on_rebuild: x.run_again_on_rebuild,
                        state: cp.instruction_states[j].1,
                    });
                }
                j += 1;
            }
            sim.restore_states(states);
        }
        let ghost s1 = sim;
        if attempt_start {
            sim.start(None)?;
        }
        let r = self.enroll(sim);
        proof {
            if r is Ok && !attempt_start {
                assert(self.simulations@.last() == s1);
            }
        }
        r
    }
}

} // verus!
