#![verifier::loop_isolation(false)]
//! Applying instructions to guest runtimes, checkpoints, and the lifecycle:
//! start, shutdown, rebuild and node resets.
use vstd::prelude::*;
use crate::keyed::{Keyed, has_key, unique_keys, find, str_eq, str_in, key_index, keyed, lemma_index_of_key, contains_str};
use crate::model::{same_sim, Error, ErrorKind, Result, State, Node, NodeRuntime, Instruction, InstructionData,
    InstructionState, Checkpoint, Configuration, Simulation, Pairs, conflict, recorded, keys_unique, pairs_put, pairs_insert,
    clone_pairs};
use crate::checkpoint::{config_of, clone_runtime};
use crate::outside::{new_id, now};
use crate::api::{blank, is_blank};

verus! {

/// A guest runtime as plain values: hostname and files.
pub open spec fn rt(r: NodeRuntime) -> (String, Seq<(String, String)>) {
    (r.hostname, r.files@)
}

pub open spec fn runtimes(nodes: Seq<Node>) -> Seq<(String, Seq<(String, String)>)> {
    nodes.map_values(|n: Node| rt(n.runtime))
}

/// `p` with every pair of `files` put in turn.
pub open spec fn put_all(p: Seq<(String, String)>, files: Seq<(String, String)>) -> Seq<(String, String)>
    decreases files.len(),
{
    if files.len() == 0 {
        p
    } else {
        let q = put_all(p, files.drop_last());
        pairs_put(q, files.last().0, files.last().1)
    }
}

/// A runtime after one instruction: a hostname is set, files are written.
pub open spec fn rt_after(r: (String, Seq<(String, String)>), d: InstructionData) -> (String, Seq<(String, String)>) {
    match d {
        InstructionData::Init { hostname } => (hostname, r.1),
        InstructionData::File { files } => (r.0, put_all(r.1, files@)),
        InstructionData::Shell { .. } => r,
    }
}

pub open spec fn selected(sel: Option<Seq<String>>, node: Seq<char>) -> bool {
    match sel {
        None => true,
        Some(v) => str_in(v, node),
    }
}

/// Does instruction `i` run: its node is selected, it is pending or runs again on
/// a rebuild, and it is not a shell instruction?
pub open spec fn runs(i: Instruction, sel: Option<Seq<String>>, rebuild: bool) -> bool {
    &&& selected(sel, i.node@)
    &&& (i.state != InstructionState::Complete || (rebuild && i.run_again_on_rebuild))
    &&& !(i.data is Shell)
}

/// The node runtimes after running `instrs` in order.
pub open spec fn applied(nodes: Seq<Node>, rts: Seq<(String, Seq<(String, String)>)>, instrs: Seq<Instruction>,
    sel: Option<Seq<String>>, rebuild: bool) -> Seq<(String, Seq<(String, String)>)>
    decreases instrs.len(),
{
    if instrs.len() == 0 {
        rts
    } else {
        let prev = applied(nodes, rts, instrs.drop_last(), sel, rebuild);
        let i = instrs.last();
        if runs(i, sel, rebuild) {
            let n = key_index(nodes, i.node@);
            prev.update(n, rt_after(prev[n], i.data))
        } else {
            prev
        }
    }
}

/// Node `b` is `a` with another runtime.
pub open spec fn same_but_runtime(a: Node, b: Node) -> bool {
    b == (Node { runtime: b.runtime, ..a })
}

/// Instruction `b` is `a` with another state.
pub open spec fn same_but_state(a: Instruction, b: Instruction) -> bool {
    b == (Instruction { state: b.state, ..a })
}

/// `b` is `a` after the instructions ran: runtimes as `applied` says, each
/// instruction that ran complete, all else equal.
pub open spec fn instructions_applied(a: Simulation, b: Simulation, sel: Option<Seq<String>>, rebuild: bool) -> bool {
    &&& b.nodes@.len() == a.nodes@.len()
    &&& forall|k: int| 0 <= k < a.nodes@.len() ==> same_but_runtime(a.nodes@[k], #[trigger] b.nodes@[k])
    &&& runtimes(b.nodes@) == applied(a.nodes@, runtimes(a.nodes@), a.instructions@, sel, rebuild)
    &&& b.instructions@.len() == a.instructions@.len()
    &&& forall|k: int| 0 <= k < a.instructions@.len() ==> same_but_state(a.instructions@[k], #[trigger] b.instructions@[k])
        && b.instructions@[k].state == (if runs(a.instructions@[k], sel, rebuild) { InstructionState::Complete }
            else { a.instructions@[k].state })
    &&& b == (Simulation { nodes: b.nodes, instructions: b.instructions, ..a })
}

proof fn lemma_runtimes_update(nodes: Seq<Node>, k: int, n: Node)
    requires
        0 <= k < nodes.len(),
    ensures
        runtimes(nodes.update(k, n)) == runtimes(nodes).update(k, rt(n.runtime)),
{
    assert(runtimes(nodes.update(k, n)) =~= runtimes(nodes).update(k, rt(n.runtime)));
}

/// Writes every pair of `files` into `p` in turn.
fn put_files(p: &mut Pairs, files: &Pairs)
    requires
        keys_unique(old(p)@),
    ensures
        keys_unique(final(p)@),
        final(p)@ == put_all(old(p)@, files@),
{
    let ghost p0 = p@;
    let mut i: usize = 0;
    proof { assert(files@.subrange(0, 0).len() == 0); }
    while i < files.len()
        invariant
            i <= files@.len(),
            keys_unique(p@),
            p@ == put_all(p0, files@.subrange(0, i as int)),
        decreases files@.len() - i,
    {
        proof { assert(files@.subrange(0, i + 1).drop_last() =~= files@.subrange(0, i as int)); }
        pairs_insert(p, files[i].0.clone(), files[i].1.clone());
        i += 1;
    }
    proof { assert(files@.subrange(0, i as int) =~= files@); }
}

impl Simulation {
    /// Runs the selected instructions in order against the node runtimes.
    fn apply_instructions(&mut self, sel: Option<&Vec<String>>, rebuild: bool)
        requires
            old(self).wf(),
        ensures
            final(self).wf(),
            instructions_applied(*old(self), *final(self), match sel { Some(v) => Some(v@), None => None }, rebuild),
    {
        let ghost a = *self;
        let ghost sv = match sel { Some(v) => Some(v@), None => None };
        let mut i: usize = 0;
        proof { assert(a.instructions@.subrange(0, 0).len() == 0); }
        while i < self.instructions.len()
            invariant
                self.wf(),
                i <= a.instructions@.len(),
                self.nodes@.len() == a.nodes@.len(),
                forall|k: int| 0 <= k < a.nodes@.len() ==> same_but_runtime(a.nodes@[k], #[trigger] self.nodes@[k]),
                runtimes(self.nodes@) == applied(a.nodes@, runtimes(a.nodes@), a.instructions@.subrange(0, i as int), sv, rebuild),
                self.instructions@.len() == a.instructions@.len(),
                forall|k: int| 0 <= k < i ==> same_but_state(a.instructions@[k], #[trigger] self.instructions@[k])
                    && self.instructions@[k].state == (if runs(a.instructions@[k], sv, rebuild) { InstructionState::Complete }
                        else { a.instructions@[k].state }),
                forall|k: int| i <= k < a.instructions@.len() ==> #[trigger] self.instructions@[k] == a.instructions@[k],
                *self == (Simulation { nodes: self.nodes, instructions: self.instructions, ..a }),
            decreases a.instructions@.len() - i,
        {
            proof { assert(a.instructions@.subrange(0, i + 1).drop_last() =~= a.instructions@.subrange(0, i as int)); }
            let chosen = match sel {
                None => true,
                Some(v) => contains_str(v, self.instructions[i].node.as_str()),
            };
            let again = self.instructions[i].state != InstructionState::Complete
                || (rebuild && self.instructions[i].run_again_on_rebuild);
            let shell = match &self.instructions[i].data {
                InstructionData::Shell { .. } => true,
                _ => false,
            };
            if chosen && again && !shell {
                let n = find(&self.nodes, self.instructions[i].node.as_str()).unwrap();
                proof {
                    lemma_index_of_key(self.nodes@, n as int);
                    crate::keyed::lemma_same_keys(a.nodes@, self.nodes@);
                    lemma_index_of_key(a.nodes@, n as int);
                }
                let ghost nodes0 = self.nodes@;
                let mut node = self.nodes.remove(n);
                match &self.instructions[i].data {
                    InstructionData::Init { hostname } => {
                        node.runtime.hostname = hostname.clone();
                    },
                    InstructionData::File { files } => {
                        put_files(&mut node.runtime.files, files);
                    },
                    InstructionData::Shell { .. } => {},
                }
                let ghost nn = node;
                self.nodes.insert(n, node);
                proof {
                    assert(self.nodes@ =~= nodes0.update(n as int, nn));
                    lemma_runtimes_update(nodes0, n as int, nn);
                    crate::keyed::lemma_update_key(nodes0, n as int, nn);
                }
                self.instructions[i].state = InstructionState::Complete;
                proof {
                    let s = *self;
                    assert forall|x: int, y: int| 0 <= x < s.nodes@.len() && 0 <= y < s.nodes@.len() && x != y
                        implies s.nodes@[x].spec.name@ != s.nodes@[y].spec.name@ by {
                        assert(s.nodes@[x].spec == a.nodes@[x].spec && s.nodes@[y].spec == a.nodes@[y].spec);
                    }
                    assert forall|x: int| 0 <= x < s.nodes@.len() implies keys_unique(#[trigger] s.nodes@[x].runtime.files@) by {
                        if x != n {
                            assert(s.nodes@[x] == nodes0[x]);
                        }
                    }
                    crate::keyed::lemma_same_keys(a.instructions@, s.instructions@);
                    assert forall|x: int| 0 <= x < s.interfaces@.len() implies has_key(s.nodes@, #[trigger] s.interfaces@[x].node@) by {
                        assert(has_key(a.nodes@, s.interfaces@[x].node@));
                    }
                    assert forall|x: int| 0 <= x < s.instructions@.len() implies has_key(s.nodes@, #[trigger] s.instructions@[x].node@) by {
                        assert(s.instructions@[x].node == a.instructions@[x].node);
                        assert(has_key(a.nodes@, a.instructions@[x].node@));
                    }
                }
            }
            i += 1;
        }
        proof { assert(a.instructions@.subrange(0, i as int) =~= a.instructions@); }
    }
}

/// `cp` can be restored onto `s`: its runtimes and instruction states name exactly
/// the current nodes and instructions, and its configuration is the current one.
pub open spec fn checkpoint_fits(cp: Checkpoint, s: Simulation) -> bool {
    &&& cp.runtime@.len() == s.nodes@.len()
    &&& forall|i: int| 0 <= i < s.nodes@.len() ==> (#[trigger] cp.runtime@[i]).0@ == s.nodes@[i].id@
    &&& cp.instruction_states@.len() == s.instructions@.len()
    &&& forall|i: int| 0 <= i < s.instructions@.len() ==> (#[trigger] cp.instruction_states@[i]).0@ == s.instructions@[i].id@
    &&& config_of(cp.configuration, s)
}

/// `cp` holds the current runtimes and instruction states of `s`.
pub open spec fn captures(cp: Checkpoint, s: Simulation) -> bool {
    &&& checkpoint_fits(cp, s)
    &&& forall|i: int| 0 <= i < s.nodes@.len() ==> rt((#[trigger] cp.runtime@[i]).1) == rt(s.nodes@[i].runtime)
    &&& forall|i: int| 0 <= i < s.instructions@.len() ==> (#[trigger] cp.instruction_states@[i]).1 == s.instructions@[i].state
}

/// `b` is `a` with checkpoint `id`, named `name`, capturing `a`.
pub open spec fn checkpoint_pushed(a: Simulation, b: Simulation, id: Seq<char>, name: Seq<char>) -> bool {
    let cp = b.checkpoints@.last();
    &&& b.checkpoints@.len() == a.checkpoints@.len() + 1 && b.checkpoints@.drop_last() == a.checkpoints@
    &&& cp.id@ == id && cp.name@ == name && !cp.favorite && captures(cp, a)
    &&& b == (Simulation { checkpoints: b.checkpoints, ..a })
}

pub open spec fn checkpoint_created(a: Simulation, b: Simulation, id: Seq<char>, name: Seq<char>) -> bool {
    exists|mid: Simulation| #[trigger] checkpoint_pushed(a, mid, id, name) && recorded(mid, b, "checkpoint created"@)
}

impl Simulation {
    /// Saves the guest runtimes and instruction states with the current configuration.
    /// A fresh random identifier that happens to collide is refused as a conflict.
    pub fn create_checkpoint(&mut self, name: &str) -> (r: Result<String>)
        requires
            old(self).wf(),
        ensures
            final(self).wf(),
            r is Err ==> same_sim(*old(self), *final(self)),
            r is Err ==> r->Err_0 is Conflict,
            old(self).checkpoints@.len() + 1 > old(self).limits.checkpoints ==> r is Err,
            r is Ok ==> old(self).checkpoints@.len() + 1 <= old(self).limits.checkpoints,
            r matches Ok(id) ==> !has_key(old(self).checkpoints@, id@) && checkpoint_created(*old(self), *final(self), id@, name@),
    {
        let key = new_id();
        self.create_checkpoint_with_id(name, key)
    }

    /// `create_checkpoint` with the identifier already drawn.
    pub fn create_checkpoint_with_id(&mut self, name: &str, key: String) -> (r: Result<String>)
        requires
            old(self).wf(),
        ensures
            final(self).wf(),
            r is Err ==> same_sim(*old(self), *final(self)),
            r is Err ==> r->Err_0 is Conflict,
            old(self).checkpoints@.len() + 1 > old(self).limits.checkpoints ==> r is Err,
            r matches Ok(id) ==> !has_key(old(self).checkpoints@, id@) && checkpoint_created(*old(self), *final(self), id@, name@),
            old(self).checkpoints@.len() + 1 <= old(self).limits.checkpoints && !has_key(old(self).checkpoints@, key@) ==> r is Ok,
            r matches Ok(k) ==> k@ == key@,
    {
        crate::limits::capacity("checkpoints capacity exceeded", self.checkpoints.len(), 1, self.limits.checkpoints)?;

        if find(&self.checkpoints, key.as_str()).is_some() {
            return Err(conflict("checkpoint identifier collision"));
        }
        let mut runtime: Vec<(String, NodeRuntime)> = Vec::new();
        let mut i: usize = 0;
        while i < self.nodes.len()
            invariant
                i <= self.nodes@.len(),
                runtime@.len() == i,
                forall|j: int| 0 <= j < i ==> (#[trigger] runtime@[j]).0@ == self.nodes@[j].id@
                    && rt(runtime@[j].1) == rt(self.nodes@[j].runtime),
            decreases self.nodes@.len() - i,
        {
            runtime.push((self.nodes[i].id.clone(), clone_runtime(&self.nodes[i].runtime)));
            i += 1;
        }
        let mut states: Vec<(String, InstructionState)> = Vec::new();
        let mut i: usize = 0;
        while i < self.instructions.len()
            invariant
                i <= self.instructions@.len(),
                states@.len() == i,
                forall|j: int| 0 <= j < i ==> (#[trigger] states@[j]).0@ == self.instructions@[j].id@
                    && states@[j].1 == self.instructions@[j].state,
            decreases self.instructions@.len() - i,
        {
            states.push((self.instructions[i].id.clone(), self.instructions[i].state));
            i += 1;
        }
        let cp = Checkpoint {
            id: key.clone(),
            name: name.to_owned(),
            favorite: false,
            created: now(),
            runtime,
            configuration: self.configuration(),
            instruction_states: states,
        };
        let ghost a = *self;
        proof { crate::keyed::lemma_push_key(a.checkpoints@, cp); }
        self.checkpoints.push(cp);
        let ghost mid = *self;
        proof {
            assert(self.checkpoints@.drop_last() =~= a.checkpoints@);
            assert forall|c: int, k: int| 0 <= c < self.checkpoints@.len() && 0 <= k < self.checkpoints@[c].runtime@.len()
                implies keys_unique(#[trigger] self.checkpoints@[c].runtime@[k].1.files@) by {
                if c < a.checkpoints@.len() {
                    assert(self.checkpoints@[c] == a.checkpoints@[c]);
                } else {
                    assert(self.checkpoints@[c].runtime@[k].1.files@ == a.nodes@[k].runtime.files@);
                }
            }
        }
        self.event("checkpoint created");
        proof {
            assert(checkpoint_pushed(a, mid, key@, name@));
            assert(recorded(mid, *self, "checkpoint created"@));
            assert(checkpoint_created(a, *self, key@, name@));
        }
        Ok(key)
    }

    /// Renames a checkpoint and sets whether it is a favorite.
    pub fn update_checkpoint(&mut self, checkpoint: &str, name: String, favorite: bool) -> (r: Result<()>)
        requires
            old(self).wf(),
        ensures
            final(self).wf(),
            r is Err ==> same_sim(*old(self), *final(self)),
            r is Ok <==> has_key(old(self).checkpoints@, checkpoint@),
            r is Err ==> r->Err_0 is NotFound,
            r is Ok ==> exists|mid: Simulation| #[trigger] recorded(mid, *final(self), "checkpoint updated"@)
                && mid == (Simulation { checkpoints: mid.checkpoints, ..*old(self) })
                && mid.checkpoints@ == old(self).checkpoints@.update(key_index(old(self).checkpoints@, checkpoint@),
                    Checkpoint { name: name, favorite: favorite, ..keyed(old(self).checkpoints@, checkpoint@) }),
    {
        let k = match find(&self.checkpoints, checkpoint) {
            Some(k) => k,
            None => return Err(Error::NotFound(checkpoint.to_owned())),
        };
        proof { lemma_index_of_key(self.checkpoints@, k as int); }
        let ghost a = *self;
        let ghost n0 = name;
        self.checkpoints[k].name = name;
        self.checkpoints[k].favorite = favorite;
        let ghost mid = *self;
        proof {
            assert(self.checkpoints@ =~= a.checkpoints@.update(k as int,
                Checkpoint { name: n0, favorite: favorite, ..a.checkpoints@[k as int] }));
            crate::keyed::lemma_update_key(a.checkpoints@, k as int, self.checkpoints@[k as int]);
            assert forall|c: int, j: int| 0 <= c < self.checkpoints@.len() && 0 <= j < self.checkpoints@[c].runtime@.len()
                implies keys_unique(#[trigger] self.checkpoints@[c].runtime@[j].1.files@) by {
                assert(self.checkpoints@[c].runtime == a.checkpoints@[c].runtime);
            }
        }
        self.event("checkpoint updated");
        proof { assert(recorded(mid, *self, "checkpoint updated"@)); }
        Ok(())
    }

    /// Deletes a checkpoint.
    pub fn delete_checkpoint(&mut self, checkpoint: &str) -> (r: Result<()>)
        requires
            old(self).wf(),
        ensures
            final(self).wf(),
            r is Err ==> same_sim(*old(self), *final(self)),
            r is Ok <==> has_key(old(self).checkpoints@, checkpoint@),
            r is Err ==> r->Err_0 is NotFound,
            r is Ok ==> exists|mid: Simulation| #[trigger] recorded(mid, *final(self), "checkpoint deleted"@)
                && mid == (Simulation { checkpoints: mid.checkpoints, ..*old(self) })
                && mid.checkpoints@ == old(self).checkpoints@.remove(key_index(old(self).checkpoints@, checkpoint@)),
    {
        let k = match find(&self.checkpoints, checkpoint) {
            Some(k) => k,
            None => return Err(Error::NotFound(checkpoint.to_owned())),
        };
        proof {
            lemma_index_of_key(self.checkpoints@, k as int);
            crate::keyed::lemma_remove_key(self.checkpoints@, k as int);
        }
        let ghost a = *self;
        self.checkpoints.remove(k);
        let ghost mid = *self;
        proof {
            assert forall|c: int, j: int| 0 <= c < self.checkpoints@.len() && 0 <= j < self.checkpoints@[c].runtime@.len()
                implies keys_unique(#[trigger] self.checkpoints@[c].runtime@[j].1.files@) by {
                let d = if c < k { c } else { c + 1 };
                assert(self.checkpoints@[c] == a.checkpoints@[d]);
            }
        }
        self.event("checkpoint deleted");
        proof { assert(recorded(mid, *self, "checkpoint deleted"@)); }
        Ok(())
    }

    /// `Ok` exactly when checkpoint `k` fits the current configuration.
    pub(crate) fn validate_checkpoint(&self, k: usize) -> (r: Result<()>)
        requires
            k < self.checkpoints@.len(),
        ensures
            r is Ok <==> checkpoint_fits(self.checkpoints@[k as int], *self),
            r is Err ==> r->Err_0 is Conflict,
    {
        let cp = &self.checkpoints[k];
        let differs = Err(conflict("checkpoint configuration differs; create a new checkpoint after edits"));
        if cp.runtime.len() != self.nodes.len() || cp.instruction_states.len() != self.instructions.len() {
            return differs;
        }
        let mut i: usize = 0;
        while i < self.nodes.len()
            invariant
                cp.runtime@.len() == self.nodes@.len(),
                i <= self.nodes@.len(),
                forall|j: int| 0 <= j < i ==> (#[trigger] cp.runtime@[j]).0@ == self.nodes@[j].id@,
            decreases self.nodes@.len() - i,
        {
            if !str_eq(cp.runtime[i].0.as_str(), self.nodes[i].id.as_str()) {
                return differs;
            }
            i += 1;
        }
        let mut i: usize = 0;
        while i < self.instructions.len()
            invariant
                cp.instruction_states@.len() == self.instructions@.len(),
                i <= self.instructions@.len(),
                forall|j: int| 0 <= j < i ==> (#[trigger] cp.instruction_states@[j]).0@ == self.instructions@[j].id@,
            decreases self.instructions@.len() - i,
        {
            if !str_eq(cp.instruction_states[i].0.as_str(), self.instructions[i].id.as_str()) {
                return differs;
            }
            i += 1;
        }
        if !self.configuration_is(&cp.configuration) {
            return differs;
        }
        Ok(())
    }
}

/// What fails first when checkpoint `id` is restored.
pub open spec fn restore_fault(s: Simulation, id: Seq<char>) -> Option<ErrorKind> {
    if !has_key(s.checkpoints@, id) {
        Some(ErrorKind::NotFound)
    } else if !checkpoint_fits(keyed(s.checkpoints@, id), s) {
        Some(ErrorKind::Conflict)
    } else {
        None
    }
}

/// `b` is `a` with the runtimes and instruction states of `cp`, reservations
/// cleared and the scheduling frontier at the clock.
pub open spec fn restored(a: Simulation, b: Simulation, cp: Checkpoint) -> bool {
    &&& b.nodes@.len() == a.nodes@.len()
    &&& forall|k: int| 0 <= k < a.nodes@.len() ==> same_but_runtime(a.nodes@[k], #[trigger] b.nodes@[k])
        && rt(b.nodes@[k].runtime) == rt(cp.runtime@[k].1)
    &&& b.instructions@.len() == a.instructions@.len()
    &&& forall|k: int| 0 <= k < a.instructions@.len() ==> same_but_state(a.instructions@[k], #[trigger] b.instructions@[k])
        && b.instructions@[k].state == cp.instruction_states@[k].1
    &&& b.available@.len() == 0 && b.scheduling_frontier_ns == a.clock_ns
    &&& b == (Simulation { nodes: b.nodes, instructions: b.instructions, available: b.available,
        scheduling_frontier_ns: b.scheduling_frontier_ns, ..a })
}

impl Simulation {
    /// Puts back the runtimes and instruction states of a checkpoint that fits.
    fn restore_checkpoint(&mut self, checkpoint: &str) -> (r: Result<()>)
        requires
            old(self).wf(),
        ensures
            final(self).wf(),
            r is Err ==> *final(self) == *old(self),
            outcome_unit(r) == restore_fault(*old(self), checkpoint@),
            r is Ok ==> restored(*old(self), *final(self), keyed(old(self).checkpoints@, checkpoint@)),
    {
        let k = match find(&self.checkpoints, checkpoint) {
            Some(k) => k,
            None => return Err(Error::NotFound(checkpoint.to_owned())),
        };
        proof { lemma_index_of_key(self.checkpoints@, k as int); }
        self.validate_checkpoint(k)?;
        let ghost a = *self;
        let ghost cp = self.checkpoints@[k as int];
        let mut i: usize = 0;
        while i < self.nodes.len()
            invariant
                self.wf(),
                k < self.checkpoints@.len() && self.checkpoints@[k as int] == cp,
                checkpoint_fits(cp, a),
                i <= a.nodes@.len(),
                self.nodes@.len() == a.nodes@.len(),
                forall|j: int| 0 <= j < a.nodes@.len() ==> same_but_runtime(a.nodes@[j], #[trigger] self.nodes@[j]),
                forall|j: int| 0 <= j < i ==> rt((#[trigger] self.nodes@[j]).runtime) == rt(cp.runtime@[j].1),
                *self == (Simulation { nodes: self.nodes, ..a }),
            decreases a.nodes@.len() - i,
        {
            let r = clone_runtime(&self.checkpoints[k].runtime[i].1);
            proof { assert(keys_unique(cp.runtime@[i as int].1.files@)); }
            let ghost nodes0 = self.nodes@;
            self.nodes[i].runtime = r;
            proof {
                let s = *self;
                assert forall|x: int| 0 <= x < s.nodes@.len() implies #[trigger] s.nodes@[x].key() == nodes0[x].key() by {}
                crate::keyed::lemma_same_keys(nodes0, s.nodes@);
                assert forall|x: int, y: int| 0 <= x < s.nodes@.len() && 0 <= y < s.nodes@.len() && x != y
                    implies s.nodes@[x].spec.name@ != s.nodes@[y].spec.name@ by {
                    assert(s.nodes@[x].spec == a.nodes@[x].spec && s.nodes@[y].spec == a.nodes@[y].spec);
                }
                assert forall|x: int| 0 <= x < s.interfaces@.len() implies has_key(s.nodes@, #[trigger] s.interfaces@[x].node@) by {
                    assert(has_key(nodes0, s.interfaces@[x].node@));
                }
                assert forall|x: int| 0 <= x < s.instructions@.len() implies has_key(s.nodes@, #[trigger] s.instructions@[x].node@) by {
                    assert(has_key(nodes0, s.instructions@[x].node@));
                }
            }
            i += 1;
        }
        let ghost b = *self;
        let mut i: usize = 0;
        while i < self.instructions.len()
            invariant
                self.wf(),
                k < self.checkpoints@.len() && self.checkpoints@[k as int] == cp,
                checkpoint_fits(cp, a),
                i <= a.instructions@.len(),
                self.instructions@.len() == a.instructions@.len(),
                forall|j: int| 0 <= j < a.instructions@.len() ==> same_but_state(a.instructions@[j], #[trigger] self.instructions@[j]),
                forall|j: int| 0 <= j < i ==> (#[trigger] self.instructions@[j]).state == cp.instruction_states@[j].1,
                *self == (Simulation { instructions: self.instructions, ..b }),
            decreases a.instructions@.len() - i,
        {
            let st = self.checkpoints[k].instruction_states[i].1;
            let ghost ins0 = self.instructions@;
            self.instructions[i].state = st;
            proof {
                let s = *self;
                assert forall|x: int| 0 <= x < s.instructions@.len() implies #[trigger] s.instructions@[x].key() == ins0[x].key() by {}
                crate::keyed::lemma_same_keys(ins0, s.instructions@);
                assert forall|x: int| 0 <= x < s.instructions@.len() implies has_key(s.nodes@, #[trigger] s.instructions@[x].node@) by {
                    assert(s.instructions@[x].node == ins0[x].node);
                }
            }
            i += 1;
        }
        self.available = Vec::new();
        self.scheduling_frontier_ns = self.clock_ns;
        proof {
            assert(keyed(a.checkpoints@, checkpoint@) == cp);
        }
        Ok(())
    }
}

pub open spec fn outcome_unit(r: Result<()>) -> Option<ErrorKind> {
    crate::model::outcome(r)
}

pub open spec fn next_generation(g: u64) -> u64 {
    if g == u64::MAX { 0 } else { (g + 1) as u64 }
}

/// Node `b` is `a` in state `st`, its generation advanced when `bump`.
pub open spec fn node_moved(a: Node, b: Node, st: State, bump: bool) -> bool {
    b == (Node { state: st, generation: if bump { next_generation(a.generation) } else { a.generation }, ..a })
}

/// Node `b` is `a` with its generation advanced exactly when selected, and, when
/// `fresh` and selected, a runtime holding only its name as hostname.
pub open spec fn node_reset(a: Node, b: Node, sel: Option<Seq<String>>, fresh: bool, bump: bool) -> bool {
    if selected(sel, a.id@) {
        &&& b == (Node { generation: if bump { next_generation(a.generation) } else { a.generation }, runtime: b.runtime, ..a })
        &&& fresh ==> b.runtime.hostname == a.spec.name && b.runtime.files@.len() == 0
        &&& !fresh ==> b.runtime == a.runtime
    } else {
        b == a
    }
}

impl Simulation {
    /// Puts every node in `st`, advancing generations when `bump`.
    fn move_nodes(&mut self, st: State, bump: bool)
        requires
            old(self).wf(),
        ensures
            final(self).wf(),
            final(self).nodes@.len() == old(self).nodes@.len(),
            forall|k: int| 0 <= k < old(self).nodes@.len() ==> node_moved(old(self).nodes@[k], #[trigger] final(self).nodes@[k], st, bump),
            *final(self) == (Simulation { nodes: final(self).nodes, ..*old(self) }),
    {
        let ghost a = *self;
        let mut i: usize = 0;
        while i < self.nodes.len()
            invariant
                self.wf(),
                i <= a.nodes@.len(),
                self.nodes@.len() == a.nodes@.len(),
                forall|k: int| 0 <= k < i ==> node_moved(a.nodes@[k], #[trigger] self.nodes@[k], st, bump),
                forall|k: int| i <= k < a.nodes@.len() ==> #[trigger] self.nodes@[k] == a.nodes@[k],
                *self == (Simulation { nodes: self.nodes, ..a }),
            decreases a.nodes@.len() - i,
        {
            let ghost nodes0 = self.nodes@;
            self.nodes[i].state = st;
            if bump {
                self.nodes[i].generation = self.nodes[i].generation.wrapping_add(1);
            }
            proof { lemma_nodes_same_shape(nodes0, self.nodes@, *self); }
            i += 1;
        }
    }

    /// Advances the generation of the selected nodes when `bump`; with `fresh`, empties their runtimes.
    fn reset_selected(&mut self, sel: Option<&Vec<String>>, fresh: bool, bump: bool)
        requires
            old(self).wf(),
        ensures
            final(self).wf(),
            final(self).nodes@.len() == old(self).nodes@.len(),
            forall|k: int| 0 <= k < old(self).nodes@.len() ==> node_reset(old(self).nodes@[k], #[trigger] final(self).nodes@[k],
                match sel { Some(v) => Some(v@), None => None }, fresh, bump),
            *final(self) == (Simulation { nodes: final(self).nodes, ..*old(self) }),
    {
        let ghost a = *self;
        let ghost sv = match sel { Some(v) => Some(v@), None => None };
        let mut i: usize = 0;
        while i < self.nodes.len()
            invariant
                self.wf(),
                i <= a.nodes@.len(),
                self.nodes@.len() == a.nodes@.len(),
                forall|k: int| 0 <= k < i ==> node_reset(a.nodes@[k], #[trigger] self.nodes@[k], sv, fresh, bump),
                forall|k: int| i <= k < a.nodes@.len() ==> #[trigger] self.nodes@[k] == a.nodes@[k],
                *self == (Simulation { nodes: self.nodes, ..a }),
            decreases a.nodes@.len() - i,
        {
            let chosen = match sel {
                None => true,
                Some(v) => contains_str(v, self.nodes[i].id.as_str()),
            };
            if chosen {
                let ghost nodes0 = self.nodes@;
                if bump {
                    self.nodes[i].generation = self.nodes[i].generation.wrapping_add(1);
                }
                if fresh {
                    let hostname = self.nodes[i].spec.name.clone();
                    self.nodes[i].runtime = NodeRuntime { hostname, files: Vec::new() };
                }
                proof {
                    lemma_nodes_same_shape(nodes0, self.nodes@, *self);
                    assert(keys_unique(self.nodes@[i as int].runtime.files@));
                }
            }
            i += 1;
        }
    }

    /// Cancels all scheduled traffic: reservations are cleared and the frontier is the clock.
    fn cancel_traffic(&mut self)
        requires
            old(self).wf(),
        ensures
            final(self).wf(),
            *final(self) == (Simulation { available: final(self).available, scheduling_frontier_ns: old(self).clock_ns, ..*old(self) }),
            final(self).available@.len() == 0,
    {
        self.available = Vec::new();
        self.scheduling_frontier_ns = self.clock_ns;
    }
}

/// Changing only node states, generations or runtimes (with unique file keys) keeps the invariant.
proof fn lemma_nodes_same_shape(a: Seq<Node>, b: Seq<Node>, s: Simulation)
    requires
        s.nodes@ == b,
        a.len() == b.len(),
        forall|k: int| 0 <= k < a.len() ==> (#[trigger] b[k]).id == a[k].id && b[k].spec == a[k].spec,
        forall|k: int| 0 <= k < b.len() ==> keys_unique(#[trigger] b[k].runtime.files@),
        unique_keys(a),
        forall|i: int, j: int| 0 <= i < a.len() && 0 <= j < a.len() && i != j ==> a[i].spec.name@ != a[j].spec.name@,
        forall|i: int| 0 <= i < s.interfaces@.len() ==> has_key(a, #[trigger] s.interfaces@[i].node@),
        forall|i: int| 0 <= i < s.instructions@.len() ==> has_key(a, #[trigger] s.instructions@[i].node@),
        unique_keys(s.interfaces@) && unique_keys(s.links@) && unique_keys(s.services@),
        unique_keys(s.instructions@) && unique_keys(s.checkpoints@),
        forall|c: int, k: int| 0 <= c < s.checkpoints@.len() && 0 <= k < s.checkpoints@[c].runtime@.len()
            ==> keys_unique(#[trigger] s.checkpoints@[c].runtime@[k].1.files@),
        forall|i: int, j: int| 0 <= i < s.interfaces@.len() && 0 <= j < s.interfaces@.len() && i != j
            && s.interfaces@[i].node@ == s.interfaces@[j].node@ ==> s.interfaces@[i].name@ != s.interfaces@[j].name@,
        forall|i: int| 0 <= i < s.links@.len() ==> {
            &&& has_key(s.interfaces@, #[trigger] s.links@[i].interfaces[0]@)
            &&& has_key(s.interfaces@, s.links@[i].interfaces[1]@)
        },
        forall|i: int| 0 <= i < s.services@.len() ==> has_key(s.interfaces@, #[trigger] s.services@[i].interface@),
        s.history@.len() <= s.history_limit,
    ensures
        s.wf(),
{
    assert forall|k: int| 0 <= k < a.len() implies #[trigger] a[k].key() == b[k].key() by {}
    crate::keyed::lemma_same_keys(a, b);
    assert forall|i: int, j: int| 0 <= i < b.len() && 0 <= j < b.len() && i != j implies b[i].spec.name@ != b[j].spec.name@ by {
        assert(b[i].spec == a[i].spec && b[j].spec == a[j].spec);
    }
}

/// What fails first when a simulation starts.
pub open spec fn start_fault(a: Simulation, checkpoint: Option<Seq<char>>) -> Option<ErrorKind> {
    if a.state != State::Inactive {
        Some(ErrorKind::State)
    } else if a.nodes@.len() == 0 {
        Some(ErrorKind::Invalid)
    } else if a.ztp_script matches Some(z) && !blank(z@) {
        Some(ErrorKind::Unsupported)
    } else if exists|i: int| 0 <= i < a.nodes@.len() && ((#[trigger] a.nodes@[i]).user_data is Some || a.nodes@[i].meta_data is Some) {
        Some(ErrorKind::Unsupported)
    } else {
        match checkpoint {
            Some(k) => restore_fault(a, k),
            None => None,
        }
    }
}

/// `b` is `a` started: the checkpoint restored or the pending instructions run,
/// the simulation and every node active, the event recorded.
pub open spec fn start_steps(a: Simulation, m1: Simulation, m2: Simulation, b: Simulation, checkpoint: Option<Seq<char>>) -> bool {
    &&& match checkpoint {
        Some(id) => restored(a, m1, keyed(a.checkpoints@, id)),
        None => instructions_applied(a, m1, None, false),
    }
    &&& m2.nodes@.len() == m1.nodes@.len()
    &&& forall|x: int| 0 <= x < m1.nodes@.len() ==> node_moved(m1.nodes@[x], #[trigger] m2.nodes@[x], State::Active, false)
    &&& m2 == (Simulation { nodes: m2.nodes, state: State::Active, ..m1 })
    &&& recorded(m2, b, "started"@)
}

pub open spec fn started(a: Simulation, b: Simulation, checkpoint: Option<Seq<char>>) -> bool {
    exists|m1: Simulation, m2: Simulation| #[trigger] start_steps(a, m1, m2, b, checkpoint)
}

impl Simulation {
    /// Starts an inactive simulation with nodes, from a checkpoint or by running
    /// pending instructions. Guest ZTP and cloud-init need a VM or container
    /// backend and are refused as unsupported.
    pub fn start(&mut self, checkpoint: Option<&str>) -> (r: Result<()>)
        requires
            old(self).wf(),
        ensures
            final(self).wf(),
            r is Err ==> *final(self) == *old(self),
            outcome_unit(r) == start_fault(*old(self), match checkpoint { Some(k) => Some(k@), None => None }),
            r is Ok ==> started(*old(self), *final(self), match checkpoint { Some(k) => Some(k@), None => None }),
    {
        let ghost a = *self;
        let ghost cv = match checkpoint { Some(k) => Some(k@), None => None };
        self.inactive()?;
        if self.nodes.len() == 0 {
            return Err(Error::Invalid("simulation has no nodes".to_owned()));
        }
        if let Some(z) = &self.ztp_script {
            if !is_blank(z.as_str()) {
                return Err(crate::model::unsupported("executing guest ZTP requires a VM/container backend"));
            }
        }
        let mut i: usize = 0;
        while i < self.nodes.len()
            invariant
                *self == a,
                i <= self.nodes@.len(),
                forall|j: int| 0 <= j < i ==> !((#[trigger] self.nodes@[j]).user_data is Some || self.nodes@[j].meta_data is Some),
            decreases self.nodes@.len() - i,
        {
            if self.nodes[i].user_data.is_some() || self.nodes[i].meta_data.is_some() {
                return Err(crate::model::unsupported("executing cloud-init requires a VM/container backend"));
            }
            i += 1;
        }
        match checkpoint {
            Some(cp) => {
                self.restore_checkpoint(cp)?;
            },
            None => {
                self.apply_instructions(None, false);
            },
        }
        let ghost m1 = *self;
        self.state = State::Active;
        self.move_nodes(State::Active, false);
        let ghost m2 = *self;
        self.event("started");
        proof {
            assert(recorded(m2, *self, "started"@));
            assert(start_steps(a, m1, m2, *self, cv));
            assert(started(a, *self, cv));
        }
        Ok(())
    }
}

/// `b` is `a` shut down: optionally a checkpoint first, then every node inactive
/// in a new generation, scheduled traffic cancelled, the event recorded.
pub open spec fn shutdown_steps(a: Simulation, m1: Simulation, m2: Simulation, b: Simulation, checkpoint: Option<Seq<char>>) -> bool {
    &&& match checkpoint {
        Some(id) => checkpoint_created(a, m1, id, "shutdown"@),
        None => m1 == a,
    }
    &&& m2.nodes@.len() == m1.nodes@.len()
    &&& forall|x: int| 0 <= x < m1.nodes@.len() ==> node_moved(m1.nodes@[x], #[trigger] m2.nodes@[x], State::Inactive, true)
    &&& m2 == (Simulation { nodes: m2.nodes, state: State::Inactive, available: m2.available,
        scheduling_frontier_ns: m1.clock_ns, ..m1 })
    &&& m2.available@.len() == 0
    &&& recorded(m2, b, "shutdown"@)
}

pub open spec fn shut_down(a: Simulation, b: Simulation, checkpoint: Option<Seq<char>>) -> bool {
    exists|m1: Simulation, m2: Simulation| #[trigger] shutdown_steps(a, m1, m2, b, checkpoint)
}

impl Simulation {
    /// Stops an active simulation, optionally saving a checkpoint named `shutdown` first.
    pub fn shutdown(&mut self, create_checkpoint: bool) -> (r: Result<Option<String>>)
        requires
            old(self).wf(),
        ensures
            final(self).wf(),
            r is Err ==> same_sim(*old(self), *final(self)),
            old(self).state != State::Active ==> r is Err && r->Err_0 is State,
            old(self).state == State::Active && !create_checkpoint ==> r is Ok,
            r is Err && old(self).state == State::Active ==> create_checkpoint && r->Err_0 is Conflict,
            old(self).state == State::Active && create_checkpoint
                && old(self).checkpoints@.len() + 1 > old(self).limits.checkpoints ==> r is Err,
            r matches Ok(c) ==> (c is Some <==> create_checkpoint)
                && shut_down(*old(self), *final(self), match c { Some(id) => Some(id@), None => None }),
    {
        let ghost a = *self;
        self.active()?;
        let checkpoint = if create_checkpoint {
            Some(self.create_checkpoint("shutdown")?)
        } else {
            None
        };
        let ghost m1 = *self;
        self.state = State::Inactive;
        self.move_nodes(State::Inactive, true);
        self.cancel_traffic();
        let ghost m2 = *self;
        self.event("shutdown");
        proof {
            assert(recorded(m2, *self, "shutdown"@));
            assert(shutdown_steps(a, m1, m2, *self, match checkpoint { Some(id) => Some(id@), None => None }));
            assert(shut_down(a, *self, match checkpoint { Some(id) => Some(id@), None => None }));
        }
        Ok(checkpoint)
    }
}

/// `b` is `a` rebuilt: the checkpoint restored, or every runtime emptied and the
/// instructions run again as on a rebuild; then new generations, traffic
/// cancelled, the event recorded.
pub open spec fn rebuild_steps(a: Simulation, m1: Simulation, m2: Simulation, m3: Simulation, b: Simulation,
    checkpoint: Option<Seq<char>>) -> bool {
    &&& match checkpoint {
        Some(id) => restored(a, m2, keyed(a.checkpoints@, id)),
        None => {
            &&& m1.nodes@.len() == a.nodes@.len()
            &&& forall|x: int| 0 <= x < a.nodes@.len() ==> #[trigger] m1.nodes@[x] == (Node { runtime: m1.nodes@[x].runtime, ..a.nodes@[x] })
                && m1.nodes@[x].runtime.hostname == a.nodes@[x].spec.name && m1.nodes@[x].runtime.files@.len() == 0
            &&& m1 == (Simulation { nodes: m1.nodes, ..a })
            &&& instructions_applied(m1, m2, None, true)
        },
    }
    &&& m3.nodes@.len() == m2.nodes@.len()
    &&& forall|x: int| 0 <= x < m2.nodes@.len() ==> node_reset(m2.nodes@[x], #[trigger] m3.nodes@[x], None, false, true)
    &&& m3 == (Simulation { nodes: m3.nodes, available: m3.available, scheduling_frontier_ns: m2.clock_ns, ..m2 })
    &&& m3.available@.len() == 0
    &&& recorded(m3, b, "rebuilt"@)
}

pub open spec fn rebuilt(a: Simulation, b: Simulation, checkpoint: Option<Seq<char>>) -> bool {
    exists|m1: Simulation, m2: Simulation, m3: Simulation| #[trigger] rebuild_steps(a, m1, m2, m3, b, checkpoint)
}

impl Simulation {
    /// Rebuilds an inactive simulation from a checkpoint or from its instructions.
    pub fn rebuild(&mut self, checkpoint: Option<&str>) -> (r: Result<()>)
        requires
            old(self).wf(),
        ensures
            final(self).wf(),
            r is Err ==> *final(self) == *old(self),
            old(self).state != State::Inactive ==> r is Err && r->Err_0 is State,
            old(self).state == State::Inactive ==> outcome_unit(r) == match checkpoint {
                Some(k) => restore_fault(*old(self), k@),
                None => None,
            },
            r is Ok ==> rebuilt(*old(self), *final(self), match checkpoint { Some(k) => Some(k@), None => None }),
    {
        let ghost a = *self;
        let ghost cv = match checkpoint { Some(k) => Some(k@), None => None };
        self.inactive()?;
        let ghost mut m1 = a;
        match checkpoint {
            Some(cp) => {
                self.restore_checkpoint(cp)?;
            },
            None => {
                self.reset_selected(None, true, false);
                proof {
                    m1 = *self;
                    assert forall|x: int| 0 <= x < a.nodes@.len() implies #[trigger] m1.nodes@[x]
                        == (Node { runtime: m1.nodes@[x].runtime, ..a.nodes@[x] }) by {
                        assert(node_reset(a.nodes@[x], m1.nodes@[x], None, true, false));
                    }
                }
                self.apply_instructions(None, true);
            },
        }
        let ghost m2 = *self;
        self.reset_selected(None, false, true);
        self.cancel_traffic();
        let ghost m3 = *self;
        self.event("rebuilt");
        proof {
            assert(recorded(m3, *self, "rebuilt"@));
            assert(rebuild_steps(a, m1, m2, m3, *self, cv));
        }
        Ok(())
    }
}

/// Does a name occur twice in `v`?
pub open spec fn has_duplicate(v: Seq<String>) -> bool {
    exists|i: int, j: int| 0 <= i < j < v.len() && (#[trigger] v[i])@ == (#[trigger] v[j])@
}

/// What fails first when nodes are reset.
pub open spec fn reset_fault(a: Simulation, nodes: Seq<String>) -> Option<ErrorKind> {
    if a.state != State::Active {
        Some(ErrorKind::State)
    } else if has_duplicate(nodes) {
        Some(ErrorKind::Invalid)
    } else if exists|i: int| 0 <= i < nodes.len() && !has_key(a.nodes@, (#[trigger] nodes[i])@) {
        Some(ErrorKind::NotFound)
    } else {
        None
    }
}

pub open spec fn reset_steps(a: Simulation, m1: Simulation, m2: Simulation, m3: Simulation, b: Simulation,
    nodes: Seq<String>, rebuild: bool) -> bool {
    &&& m1.nodes@.len() == a.nodes@.len()
    &&& forall|x: int| 0 <= x < a.nodes@.len() ==> node_reset(a.nodes@[x], #[trigger] m1.nodes@[x], Some(nodes), rebuild, true)
    &&& m1 == (Simulation { nodes: m1.nodes, ..a })
    &&& rebuild ==> instructions_applied(m1, m2, Some(nodes), true)
    &&& !rebuild ==> m2 == m1
    &&& nodes.len() > 0 ==> m3 == (Simulation { available: m3.available, scheduling_frontier_ns: m2.clock_ns, ..m2 })
        && m3.available@.len() == 0
    &&& nodes.len() == 0 ==> m3 == m2
    &&& recorded(m3, b, if rebuild { "nodes rebuilt"@ } else { "nodes reset"@ })
}

impl Simulation {
    /// Resets the listed nodes of an active simulation into a new generation; with
    /// `rebuild`, their runtimes are emptied and their instructions run again.
    /// Resetting any node cancels all scheduled traffic.
    #[verifier::spinoff_prover]
    #[verifier::rlimit(30)]
    pub fn reset_nodes(&mut self, nodes: &Vec<String>, rebuild: bool) -> (r: Result<()>)
        requires
            old(self).wf(),
        ensures
            final(self).wf(),
            r is Err ==> *final(self) == *old(self),
            outcome_unit(r) == reset_fault(*old(self), nodes@),
            r is Ok ==> exists|m1: Simulation, m2: Simulation, m3: Simulation|
                #[trigger] reset_steps(*old(self), m1, m2, m3, *final(self), nodes@, rebuild),
    {
        let ghost a = *self;
        self.active()?;
        let mut i: usize = 0;
        while i < nodes.len()
            invariant
                i <= nodes@.len(),
                forall|x: int, y: int| 0 <= x < y < i ==> (#[trigger] nodes@[x])@ != (#[trigger] nodes@[y])@,
            decreases nodes@.len() - i,
        {
            let mut j: usize = 0;
            while j < i
                invariant
                    j <= i < nodes@.len(),
                    forall|x: int| 0 <= x < j ==> (#[trigger] nodes@[x])@ != nodes@[i as int]@,
                decreases i - j,
            {
                if str_eq(nodes[j].as_str(), nodes[i].as_str()) {
                    proof { assert(nodes@[j as int]@ == nodes@[i as int]@); }
                    return Err(Error::Invalid("duplicate nodes in bulk operation".to_owned()));
                }
                j += 1;
            }
            i += 1;
        }
        let mut i: usize = 0;
        while i < nodes.len()
            invariant
                *self == a,
                i <= nodes@.len(),
                forall|x: int| 0 <= x < i ==> has_key(a.nodes@, (#[trigger] nodes@[x])@),
            decreases nodes@.len() - i,
        {
            if find(&self.nodes, nodes[i].as_str()).is_none() {
                return Err(Error::NotFound(nodes[i].clone()));
            }
            i += 1;
        }
        self.reset_selected(Some(nodes), rebuild, true);
        let ghost m1 = *self;
        if rebuild {
            self.apply_instructions(Some(nodes), true);
        }
        let ghost m2 = *self;
        if nodes.len() > 0 {
            self.cancel_traffic();
        }
        let ghost m3 = *self;
        if rebuild {
            self.event("nodes rebuilt");
        } else {
            self.event("nodes reset");
        }
        proof {
            assert(reset_steps(a, m1, m2, m3, *self, nodes@, rebuild));
            crate::model::lemma_recorded_wf(m3, *self, if rebuild { "nodes rebuilt"@ } else { "nodes reset"@ });
        }
        Ok(())
    }

    /// Turns the out-of-band management network on or off; DHCP only with it on.
    /// Leases are kept where they exist and assigned to nodes without one.
    pub fn set_auto_oob(&mut self, enabled: bool, dhcp: bool) -> (r: Result<()>)
        requires
            old(self).wf(),
        ensures
            final(self).wf(),
            r is Err ==> *final(self) == *old(self),
            old(self).state != State::Inactive ==> r is Err && r->Err_0 is State,
            r is Err && old(self).state == State::Inactive ==> r->Err_0 is Conflict,
            r is Err && old(self).state == State::Inactive ==> enabled && dhcp,
            r is Ok ==> exists|m: Simulation| #[trigger] recorded(m, *final(self), "OOB updated"@)
                && m.auto_oob_enabled == enabled && m.enable_dhcp == (enabled && dhcp)
                && crate::api::leases_assigned(old(self).nodes@, m.nodes@, enabled && dhcp)
                && m == (Simulation { nodes: m.nodes, auto_oob_enabled: enabled, enable_dhcp: enabled && dhcp, ..*old(self) }),
    {
        self.inactive()?;
        let ghost a = *self;
        let was_enabled = self.auto_oob_enabled;
        let was_dhcp = self.enable_dhcp;
        self.auto_oob_enabled = enabled;
        self.enable_dhcp = enabled && dhcp;
        if let Err(e) = self.assign_management_addresses() {
            self.auto_oob_enabled = was_enabled;
            self.enable_dhcp = was_dhcp;
            return Err(e);
        }
        let ghost m = *self;
        proof {
            let s = *self;
            assert forall|x: int| 0 <= x < a.nodes@.len() implies #[trigger] s.nodes@[x].key() == a.nodes@[x].key() by {
                assert(crate::api::same_but_lease(a.nodes@[x], s.nodes@[x]));
            }
            crate::keyed::lemma_same_keys(a.nodes@, s.nodes@);
            assert forall|x: int, y: int| 0 <= x < s.nodes@.len() && 0 <= y < s.nodes@.len() && x != y
                implies s.nodes@[x].spec.name@ != s.nodes@[y].spec.name@ by {
                assert(crate::api::same_but_lease(a.nodes@[x], s.nodes@[x]));
                assert(crate::api::same_but_lease(a.nodes@[y], s.nodes@[y]));
            }
            assert forall|x: int| 0 <= x < s.nodes@.len() implies keys_unique(#[trigger] s.nodes@[x].runtime.files@) by {
                assert(crate::api::same_but_lease(a.nodes@[x], s.nodes@[x]));
            }
            assert forall|x: int| 0 <= x < s.interfaces@.len() implies has_key(s.nodes@, #[trigger] s.interfaces@[x].node@) by {
                assert(has_key(a.nodes@, s.interfaces@[x].node@));
            }
            assert forall|x: int| 0 <= x < s.instructions@.len() implies has_key(s.nodes@, #[trigger] s.instructions@[x].node@) by {
                assert(has_key(a.nodes@, s.instructions@[x].node@));
            }
        }
        self.event("OOB updated");
        proof { assert(recorded(m, *self, "OOB updated"@)); }
        Ok(())
    }
}

} // verus!
