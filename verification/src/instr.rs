#![verifier::loop_isolation(false)]
//! Node instructions (hostname and file writes), per-node cloud-init data,
//! and the out-of-band management network setting.
use vstd::prelude::*;
use crate::keyed::{Keyed, has_key, unique_keys, find, str_eq, str_in, key_index, keyed, lemma_index_of_key, contains_str,
    lemma_str_in_push};
use crate::model::{same_sim, same_but_nodes, Error, ErrorKind, Result, State, Node, NodeRuntime, Instruction, InstructionData,
    InstructionState, Simulation, Pairs, invalid, conflict, unsupported, recorded, name, valid_name, keys_unique, pairs_put,
    pairs_insert};
use crate::text::utf8;
use crate::api::leases_assigned;
use crate::outside::new_id;

verus! {

/// Does a `..` component occur in the `/`-separated path `p`?
pub open spec fn has_dotdot(p: Seq<char>) -> bool {
    exists|i: int| 0 <= i && i + 1 < p.len() && #[trigger] p[i] == '.' && p[i + 1] == '.'
        && (i == 0 || p[i - 1] == '/') && (i + 2 == p.len() || p[i + 2] == '/')
}

/// An absolute guest path without `..` components or NUL characters.
pub open spec fn guest_path_ok(p: Seq<char>) -> bool {
    &&& p.len() > 0 && p[0] == '/'
    &&& forall|i: int| 0 <= i < p.len() ==> #[trigger] p[i] != '\0'
    &&& !has_dotdot(p)
}

pub fn guest_path(p: &str) -> (r: bool)
    ensures
        r == guest_path_ok(p@),
{
    let n = p.unicode_len();
    if n == 0 || p.get_char(0) != '/' {
        return false;
    }
    let mut i: usize = 0;
    while i < n
        invariant
            n == p@.len(),
            i <= n,
            forall|j: int| 0 <= j < i ==> #[trigger] p@[j] != '\0',
            forall|j: int| 0 <= j < i && j + 1 < n ==> !(#[trigger] p@[j] == '.' && p@[j + 1] == '.'
                && (j == 0 || p@[j - 1] == '/') && (j + 2 == n || p@[j + 2] == '/')),
        decreases n - i,
    {
        let c = p.get_char(i);
        if c == '\0' {
            return false;
        }
        if c == '.' && i + 1 < n && p.get_char(i + 1) == '.' && (i == 0 || p.get_char(i - 1) == '/')
            && (i + 2 == n || p.get_char(i + 2) == '/') {
            return false;
        }
        i += 1;
    }
    true
}

/// What an instruction's data must satisfy.
pub open spec fn data_fault(d: InstructionData) -> Option<ErrorKind> {
    match d {
        InstructionData::Init { hostname } => if valid_name(utf8(hostname@)) { None } else { Some(ErrorKind::Invalid) },
        InstructionData::File { files } => if forall|i: int| 0 <= i < files@.len() ==> guest_path_ok(#[trigger] files@[i].0@) {
            None
        } else {
            Some(ErrorKind::Invalid)
        },
        InstructionData::Shell { .. } => Some(ErrorKind::Unsupported),
    }
}

fn check_data(d: &InstructionData) -> (r: Result<()>)
    ensures
        outcome_of(r) == data_fault(*d),
{
    match d {
        InstructionData::Init { hostname } => name(hostname.as_str()),
        InstructionData::File { files } => {
            let mut i: usize = 0;
            while i < files.len()
                invariant
                    i <= files@.len(),
                    forall|j: int| 0 <= j < i ==> guest_path_ok(#[trigger] files@[j].0@),
                decreases files@.len() - i,
            {
                if !guest_path(files[i].0.as_str()) {
                    return Err(invalid("invalid guest path"));
                }
                i += 1;
            }
            Ok(())
        },
        InstructionData::Shell { .. } => Err(unsupported(
            "guest shell execution requires a VM/container backend; network namespaces share the host filesystem")),
    }
}

pub open spec fn outcome_of(r: Result<()>) -> Option<ErrorKind> {
    crate::model::outcome(r)
}

/// What fails first when an instruction is created.
pub open spec fn instruction_fault(a: Simulation, node: Seq<char>, data: InstructionData) -> Option<ErrorKind> {
    if a.state != State::Inactive {
        Some(ErrorKind::State)
    } else if !has_key(a.nodes@, node) {
        Some(ErrorKind::NotFound)
    } else if data_fault(data) is Some {
        data_fault(data)
    } else if a.instructions@.len() + 1 > a.limits.instructions {
        Some(ErrorKind::Conflict)
    } else {
        None
    }
}

/// `mid` is `a` with a pending instruction appended.
pub open spec fn instruction_pushed(a: Simulation, mid: Simulation, id: Seq<char>, node: Seq<char>, data: InstructionData,
    again: bool) -> bool {
    let i = mid.instructions@.last();
    &&& mid.instructions@.len() == a.instructions@.len() + 1 && mid.instructions@.drop_last() == a.instructions@
    &&& i.id@ == id && i.node@ == node && i.data == data && i.run_again_on_rebuild == again
    &&& i.state == InstructionState::Pending
    &&& mid == (Simulation { instructions: mid.instructions, ..a })
}

pub open spec fn instruction_added(a: Simulation, b: Simulation, id: Seq<char>, node: Seq<char>, data: InstructionData,
    again: bool) -> bool {
    exists|mid: Simulation| #[trigger] instruction_pushed(a, mid, id, node, data, again)
        && recorded(mid, b, "node instruction created"@)
}

impl Simulation {
    /// Adds a pending instruction for a node of an inactive simulation: set the
    /// hostname, or write files at absolute guest paths. Shell commands need a
    /// VM or container backend and are refused as unsupported.
    /// A fresh random identifier that happens to collide is refused as a conflict.
    pub fn create_instruction(&mut self, node: &str, data: InstructionData, run_again_on_rebuild: bool) -> (r: Result<String>)
        requires
            old(self).wf(),
        ensures
            final(self).wf(),
            r is Err ==> same_sim(*old(self), *final(self)),
            instruction_fault(*old(self), node@, data) matches Some(k) ==> r is Err && r->Err_0.kind() == k,
            r is Ok ==> instruction_fault(*old(self), node@, data) is None,
            r is Err && instruction_fault(*old(self), node@, data) is None ==> r->Err_0 is Conflict,
            r matches Ok(id) ==> !has_key(old(self).instructions@, id@)
                && instruction_added(*old(self), *final(self), id@, node@, data, run_again_on_rebuild),
    {
        let key = new_id();
        self.create_instruction_with_id(node, data, run_again_on_rebuild, key)
    }

    /// `create_instruction` with the identifier already drawn.
    pub fn create_instruction_with_id(&mut self, node: &str, data: InstructionData, run_again_on_rebuild: bool, key: String) -> (r: Result<String>)
        requires
            old(self).wf(),
        ensures
            final(self).wf(),
            r is Err ==> same_sim(*old(self), *final(self)),
            instruction_fault(*old(self), node@, data) matches Some(k) ==> r is Err && r->Err_0.kind() == k,
            r is Ok ==> instruction_fault(*old(self), node@, data) is None,
            r is Err && instruction_fault(*old(self), node@, data) is None ==> r->Err_0 is Conflict,
            r matches Ok(id) ==> !has_key(old(self).instructions@, id@)
                && instruction_added(*old(self), *final(self), id@, node@, data, run_again_on_rebuild),
            instruction_fault(*old(self), node@, data) is None && !has_key(old(self).instructions@, key@) ==> r is Ok,
            r matches Ok(k) ==> k@ == key@,
    {
        let ghost d0 = data;
        self.inactive()?;
        if find(&self.nodes, node).is_none() {
            return Err(Error::NotFound(node.to_owned()));
        }
        check_data(&data)?;
        crate::limits::capacity("instructions capacity exceeded", self.instructions.len(), 1, self.limits.instructions)?;

        if find(&self.instructions, key.as_str()).is_some() {
            return Err(conflict("instruction identifier collision"));
        }
        let ghost a = *self;
        let ins = Instruction {
            id: key.clone(),
            node: node.to_owned(),
            data,
            run_again_on_rebuild,
            state: InstructionState::Pending,
        };
        proof { crate::keyed::lemma_push_key(a.instructions@, ins); }
        self.instructions.push(ins);
        let ghost mid = *self;
        proof {
            assert(self.instructions@.drop_last() =~= a.instructions@);
            assert forall|x: int| 0 <= x < self.instructions@.len() implies has_key(self.nodes@, #[trigger] self.instructions@[x].node@) by {
                if x < a.instructions@.len() {
                    assert(self.instructions@[x] == a.instructions@[x]);
                }
            }
        }
        self.event("node instruction created");
        proof {
            assert(instruction_pushed(a, mid, key@, node@, d0, run_again_on_rebuild));
            assert(recorded(mid, *self, "node instruction created"@));
        }
        Ok(key)
    }

    /// Removes an instruction of an inactive simulation.
    pub fn delete_instruction(&mut self, instruction: &str) -> (r: Result<()>)
        requires
            old(self).wf(),
        ensures
            final(self).wf(),
            r is Err ==> same_sim(*old(self), *final(self)),
            old(self).state != State::Inactive ==> r is Err && r->Err_0 is State,
            old(self).state == State::Inactive && !has_key(old(self).instructions@, instruction@)
                ==> r is Err && r->Err_0 is NotFound,
            r is Ok <==> old(self).state == State::Inactive && has_key(old(self).instructions@, instruction@),
            r is Ok ==> recorded((Simulation {
                instructions: final(self).instructions,
                modified: old(self).modified,
                history: old(self).history,
                ..*old(self)
            }), *final(self), "node instruction deleted"@)
                && final(self).instructions@ == old(self).instructions@.remove(key_index(old(self).instructions@, instruction@)),
    {
        self.inactive()?;
        let k = match find(&self.instructions, instruction) {
            Some(k) => k,
            None => return Err(Error::NotFound(instruction.to_owned())),
        };
        proof {
            lemma_index_of_key(self.instructions@, k as int);
            crate::keyed::lemma_remove_key(self.instructions@, k as int);
        }
        let ghost a = *self;
        self.instructions.remove(k);
        let ghost mid = *self;
        proof {
            assert forall|x: int| 0 <= x < self.instructions@.len() implies has_key(self.nodes@, #[trigger] self.instructions@[x].node@) by {
                let y = if x < k { x } else { x + 1 };
                assert(self.instructions@[x] == a.instructions@[y]);
            }
        }
        self.event("node instruction deleted");
        proof {
            assert(mid == (Simulation { instructions: mid.instructions, modified: a.modified, history: a.history, ..a }));
        }
        Ok(())
    }
}

/// Does an entry before `i` name the same node as entry `i`?
pub open spec fn repeated(asg: Seq<(String, Option<String>, Option<String>)>, i: int) -> bool {
    exists|j: int| 0 <= j < i && (#[trigger] asg[j]).0@ == asg[i].0@
}

/// The first problem among the first `n` assignments, in order: an unknown node,
/// then a node named twice.
pub open spec fn assign_fault(nodes: Seq<Node>, asg: Seq<(String, Option<String>, Option<String>)>, n: int) -> Option<ErrorKind>
    decreases n,
{
    if n <= 0 {
        None
    } else if assign_fault(nodes, asg, n - 1) is Some {
        assign_fault(nodes, asg, n - 1)
    } else if !has_key(nodes, asg[n - 1].0@) {
        Some(ErrorKind::NotFound)
    } else if repeated(asg, n - 1) {
        Some(ErrorKind::Invalid)
    } else {
        None
    }
}

/// Node `b` is `a` with the cloud-init data of the assignment that names it, if any.
pub open spec fn configured(a: Node, b: Node, asg: Seq<(String, Option<String>, Option<String>)>) -> bool {
    if exists|j: int| 0 <= j < asg.len() && (#[trigger] asg[j]).0@ == a.id@ {
        let j = choose|j: int| 0 <= j < asg.len() && (#[trigger] asg[j]).0@ == a.id@;
        b == (Node { user_data: asg[j].1, meta_data: asg[j].2, ..a })
    } else {
        b == a
    }
}

impl Simulation {
    /// Sets user and meta data of the named nodes of an inactive simulation, each node at most once.
    pub fn assign_configs(&mut self, assignments: &Vec<(String, Option<String>, Option<String>)>) -> (r: Result<()>)
        requires
            old(self).wf(),
        ensures
            final(self).wf(),
            r is Err ==> same_sim(*old(self), *final(self)),
            old(self).state != State::Inactive ==> r is Err && r->Err_0 is State,
            old(self).state == State::Inactive ==> outcome_of(r) == assign_fault(old(self).nodes@, assignments@,
                assignments@.len() as int),
            r is Ok ==> exists|mid: Simulation| #[trigger] recorded(mid, *final(self), "node configs assigned"@)
                && same_but_nodes(*old(self), mid) && mid.modified == old(self).modified && mid.history == old(self).history
                && mid.nodes@.len() == old(self).nodes@.len()
                && forall|i: int| 0 <= i < mid.nodes@.len() ==> configured(old(self).nodes@[i], #[trigger] mid.nodes@[i], assignments@),
    {
        self.inactive()?;
        let mut i: usize = 0;
        while i < assignments.len()
            invariant
                i <= assignments@.len(),
                assign_fault(self.nodes@, assignments@, i as int) is None,
            decreases assignments@.len() - i,
        {
            if find(&self.nodes, assignments[i].0.as_str()).is_none() {
                proof { lemma_fault_stays(self.nodes@, assignments@, i + 1, assignments@.len() as int); }
                return Err(Error::NotFound(assignments[i].0.clone()));
            }
            let mut j: usize = 0;
            while j < i
                invariant
                    j <= i < assignments@.len(),
                    forall|x: int| 0 <= x < j ==> (#[trigger] assignments@[x]).0@ != assignments@[i as int].0@,
                decreases i - j,
            {
                if str_eq(assignments[j].0.as_str(), assignments[i].0.as_str()) {
                    proof {
                        assert(repeated(assignments@, i as int));
                        lemma_fault_stays(self.nodes@, assignments@, i + 1, assignments@.len() as int);
                    }
                    return Err(invalid("duplicate node assignment"));
                }
                j += 1;
            }
            i += 1;
        }
        let ghost a = *self;
        let mut n: usize = 0;
        while n < self.nodes.len()
            invariant
                self.nodes@.len() == a.nodes@.len(),
                n <= a.nodes@.len(),
                forall|x: int| 0 <= x < n ==> configured(a.nodes@[x], #[trigger] self.nodes@[x], assignments@),
                forall|x: int| n <= x < a.nodes@.len() ==> #[trigger] self.nodes@[x] == a.nodes@[x],
                same_but_nodes(a, *self) && self.modified == a.modified && self.history == a.history,
            decreases a.nodes@.len() - n,
        {
            let mut j: usize = 0;
            while j < assignments.len()
                invariant
                    j <= assignments@.len(),
                    n < self.nodes@.len(),
                    self.nodes@[n as int] == a.nodes@[n as int],
                    forall|x: int| 0 <= x < j ==> (#[trigger] assignments@[x]).0@ != a.nodes@[n as int].id@,
                decreases assignments@.len() - j,
            {
                if str_eq(assignments[j].0.as_str(), self.nodes[n].id.as_str()) {
                    break;
                }
                j += 1;
            }
            if j < assignments.len() {
                let ghost pos = j as int;
                proof {
                    let c = choose|x: int| 0 <= x < assignments@.len() && (#[trigger] assignments@[x]).0@ == a.nodes@[n as int].id@;
                    if c != pos {
                        lemma_no_repeat(a.nodes@, assignments@, c, pos);
                    }
                }
                let user = match &assignments[j].1 { Some(u) => Some(u.clone()), None => None };
                let meta = match &assignments[j].2 { Some(m) => Some(m.clone()), None => None };
                self.nodes[n].user_data = user;
                self.nodes[n].meta_data = meta;
            }
            n += 1;
        }
        let ghost mid = *self;
        proof {
            crate::keyed::lemma_same_keys(a.nodes@, self.nodes@);
            assert forall|x: int, y: int| 0 <= x < self.nodes@.len() && 0 <= y < self.nodes@.len() && x != y
                implies self.nodes@[x].spec.name@ != self.nodes@[y].spec.name@ by {
                assert(self.nodes@[x].spec == a.nodes@[x].spec && self.nodes@[y].spec == a.nodes@[y].spec);
            }
            assert forall|x: int| 0 <= x < self.nodes@.len() implies keys_unique(#[trigger] self.nodes@[x].runtime.files@) by {
                assert(self.nodes@[x].runtime == a.nodes@[x].runtime);
            }
        }
        self.event("node configs assigned");
        proof { assert(recorded(mid, *self, "node configs assigned"@)); }
        Ok(())
    }
}

/// Without a fault, no two assignments name the same node.
proof fn lemma_no_repeat(nodes: Seq<Node>, asg: Seq<(String, Option<String>, Option<String>)>, x: int, y: int)
    requires
        assign_fault(nodes, asg, asg.len() as int) is None,
        0 <= x < asg.len() && 0 <= y < asg.len() && x != y,
    ensures
        asg[x].0@ != asg[y].0@,
{
    let (lo, hi) = if x < y { (x, y) } else { (y, x) };
    lemma_fault_prefix(nodes, asg, hi + 1, asg.len() as int);
    assert(!repeated(asg, hi));
    assert(asg[lo].0@ != asg[hi].0@);
}

proof fn lemma_fault_stays(nodes: Seq<Node>, asg: Seq<(String, Option<String>, Option<String>)>, m: int, n: int)
    requires
        0 <= m <= n,
        assign_fault(nodes, asg, m) is Some,
    ensures
        assign_fault(nodes, asg, n) == assign_fault(nodes, asg, m),
    decreases n - m,
{
    if m < n {
        lemma_fault_stays(nodes, asg, m, n - 1);
    }
}

proof fn lemma_fault_prefix(nodes: Seq<Node>, asg: Seq<(String, Option<String>, Option<String>)>, m: int, n: int)
    requires
        m <= n,
        assign_fault(nodes, asg, n) is None,
    ensures
        assign_fault(nodes, asg, m) is None,
    decreases n - m,
{
    if m < n {
        lemma_fault_prefix(nodes, asg, m + 1, n);
    }
}

} // verus!
