//! One command of the line protocol, applied to a session. Parsing a line into a
//! [`Command`] and rendering a [`Reply`] as JSON are the caller's business.
use vstd::prelude::*;
use crate::keyed::{Keyed, has_key, unique_keys, find, keyed, key_index, lemma_index_of_key};
use crate::model::{Error, Result, State, NodeSpec, InterfaceType, LinkSpec, ServiceType, InstructionData,
    Resources, HistoryFilters, Simulation, same_sim};
use crate::manifest::Manifest;
use crate::collective::{Layout, NcclOptions, Reduction};
use crate::topology::Transmission;
use crate::api::Simulator;

verus! {

/// A request. Collective requests carry each buffer's length and whether all of
/// its elements are finite, not the elements.
#[derive(Clone, Debug)]
pub enum Command {
    Create { name: String },
    List { name: Option<String>, state: Option<State>, offset: usize, limit: usize },
    Get { simulation: String },
    Delete { simulation: String },
    Update { simulation: String, name: String },
    Import { manifest: Manifest, attempt_start: bool },
    Export { simulation: String },
    Clone { simulation: String, name: String, checkpoint: Option<String>, attempt_start: bool },
    Start { simulation: String, checkpoint: Option<String> },
    Shutdown { simulation: String, create_checkpoint: bool },
    Rebuild { simulation: String, checkpoint: Option<String> },
    CreateNode { simulation: String, node: NodeSpec },
    UpdateNode { simulation: String, node_id: String, node: NodeSpec },
    DeleteNode { simulation: String, node: String },
    CreateInterface { simulation: String, node: String, name: String, interface_type: InterfaceType },
    DeleteInterface { simulation: String, interface: String },
    Breakout { simulation: String, interface: String, split_count: usize },
    RevertBreakout { simulation: String, interface: String },
    CreateLink { simulation: String, interfaces: [String; 2], condition: LinkSpec },
    DeleteLink { simulation: String, link: String },
    SetLink { simulation: String, link: String, condition: LinkSpec },
    AutoOob { simulation: String, enabled: bool, dhcp: bool },
    CreateService { simulation: String, interface: String, name: String, node_port: u16, service_type: ServiceType },
    DeleteService { simulation: String, service: String },
    CreateInstruction { simulation: String, node: String, data: InstructionData, run_again_on_rebuild: bool },
    DeleteInstruction { simulation: String, instruction: String },
    CreateZtp { simulation: String, content: String },
    UpdateZtp { simulation: String, content: String },
    DeleteZtp { simulation: String },
    Checkpoint { simulation: String, name: String },
    DeleteCheckpoint { simulation: String, checkpoint: String },
    ResetNodes { simulation: String, nodes: Vec<String>, rebuild: bool },
    History { simulation: String },
    HistoryFilters { simulation: String },
    Resources { simulation: String },
    Transfer { simulation: String, source: String, destination: String, bytes: usize },
    AllReduce { simulation: String, execution: NcclOptions, ranks: Vec<String>, lengths: Vec<usize>,
        finite: Vec<bool>, reduction: Reduction },
    Broadcast { simulation: String, execution: NcclOptions, ranks: Vec<String>, root: usize, length: usize,
        finite: bool },
    AllGather { simulation: String, execution: NcclOptions, ranks: Vec<String>, lengths: Vec<usize>,
        finite: Vec<bool> },
    ReduceScatter { simulation: String, execution: NcclOptions, ranks: Vec<String>, lengths: Vec<usize>,
        finite: Vec<bool>, reduction: Reduction },
}

/// Page size of a listing that names none.
pub fn limit() -> (r: usize)
    ensures
        r == 100,
{
    100
}

/// The result of a command. Values that live in the session are named by the
/// simulation they belong to; the caller renders them from there.
#[derive(Clone, Debug)]
pub enum Reply {
    Nothing,
    Id(String),
    Ids(Vec<String>),
    /// The simulation with this identifier.
    Simulation(String),
    /// These simulations, in listing order.
    Simulations(Vec<String>),
    Manifest(Manifest),
    Checkpoint(Option<String>),
    /// The history of the simulation with this identifier.
    History(String),
    HistoryFilters(HistoryFilters),
    Resources(Resources),
    Transmission(Transmission),
}

/// Every simulation of `b` is the one of `a` at the same position, unchanged.
pub open spec fn session_kept(a: Simulator, b: Simulator) -> bool {
    &&& b.max_simulations == a.max_simulations
    &&& b.simulations@.len() == a.simulations@.len()
    &&& forall|i: int| 0 <= i < a.simulations@.len() ==> same_sim(#[trigger] a.simulations@[i], b.simulations@[i])
}

/// Whether a command only reads the session.
pub open spec fn is_query(c: Command) -> bool {
    ||| c is List || c is Get || c is Export || c is History || c is HistoryFilters || c is Resources
    ||| c is AllReduce || c is Broadcast || c is AllGather || c is ReduceScatter
}

/// The text of an optional checkpoint name.
pub open spec fn opt_view(c: Option<String>) -> Option<Seq<char>> {
    match c {
        Some(k) => Some(k@),
        None => None,
    }
}

/// The simulation a command edits.
pub open spec fn edit_target(c: Command) -> Seq<char> {
    match c {
        Command::Update { simulation, .. } | Command::Start { simulation, .. } | Command::Shutdown { simulation, .. }
        | Command::Rebuild { simulation, .. } | Command::CreateNode { simulation, .. } | Command::UpdateNode { simulation, .. }
        | Command::DeleteNode { simulation, .. } | Command::CreateInterface { simulation, .. }
        | Command::DeleteInterface { simulation, .. } | Command::Breakout { simulation, .. }
        | Command::RevertBreakout { simulation, .. } | Command::CreateLink { simulation, .. }
        | Command::DeleteLink { simulation, .. } | Command::SetLink { simulation, .. } | Command::AutoOob { simulation, .. }
        | Command::CreateService { simulation, .. } | Command::DeleteService { simulation, .. }
        | Command::CreateInstruction { simulation, .. } | Command::DeleteInstruction { simulation, .. }
        | Command::CreateZtp { simulation, .. } | Command::UpdateZtp { simulation, .. } | Command::DeleteZtp { simulation }
        | Command::Checkpoint { simulation, .. } | Command::DeleteCheckpoint { simulation, .. }
        | Command::ResetNodes { simulation, .. } | Command::Transfer { simulation, .. } => simulation@,
        _ => Seq::empty(),
    }
}

/// Every simulation but `id` is as it was, and `id` is still at its place.
pub open spec fn others_kept(a: Simulator, b: Simulator, id: Seq<char>) -> bool {
    &&& b.simulations@.len() == a.simulations@.len()
    &&& has_key(a.simulations@, id) && has_key(b.simulations@, id)
    &&& key_index(b.simulations@, id) == key_index(a.simulations@, id)
    &&& forall|i: int| 0 <= i < a.simulations@.len() && a.simulations@[i].id@ != id
        ==> #[trigger] b.simulations@[i] == a.simulations@[i]
}

/// What an edit command did to its simulation `x`, now `y`, and what it replied:
/// the effect the called operation states.
pub open spec fn edit_effect(x: Simulation, y: Simulation, c: Command, reply: Reply) -> bool {
    match c {
        Command::Update { name, .. } => y.name@ == name@,
        Command::Start { checkpoint, .. } => crate::lifecycle::started(x, y, opt_view(checkpoint)),
        Command::Shutdown { create_checkpoint, .. } => reply matches Reply::Checkpoint(c)
            && (c is Some <==> create_checkpoint) && crate::lifecycle::shut_down(x, y, opt_view(c)),
        Command::Rebuild { checkpoint, .. } => crate::lifecycle::rebuilt(x, y, opt_view(checkpoint)),
        Command::CreateNode { node, .. } => reply matches Reply::Id(id) && !has_key(x.nodes@, id@)
            && crate::api::node_added(x, y, id@, node),
        Command::UpdateNode { node_id, node, .. } => crate::api::node_respecified(x, y, node_id@, node),
        Command::DeleteNode { node, .. } => crate::api::node_deleted(x, y, node@),
        Command::CreateInterface { node, name, interface_type, .. } => reply matches Reply::Id(id)
            && !has_key(x.interfaces@, id@) && crate::api::interface_added(x, y, id@, node@, name@, interface_type),
        Command::DeleteInterface { interface, .. } => crate::api::interface_deleted(x, y, interface@),
        Command::Breakout { interface, split_count, .. } => reply matches Reply::Ids(ch) && ch@.len() == split_count
            && crate::breakout::broken_out(x, y, interface@, ch@),
        Command::RevertBreakout { interface, .. } => exists|m1: Simulation, m2: Simulation|
            #[trigger] crate::breakout::revert_steps(x, y, interface@, m1, m2),
        Command::CreateLink { interfaces, condition, .. } => reply matches Reply::Id(id) && !has_key(x.links@, id@)
            && crate::api::link_created(x, y, id@, interfaces[0]@, interfaces[1]@, condition),
        Command::DeleteLink { link, .. } => crate::ops::link_deleted(x, y, link@),
        Command::SetLink { link, condition, .. } => crate::api::link_respecified(x, y, link@, condition),
        Command::AutoOob { enabled, dhcp, .. } => exists|m: Simulation| #[trigger] crate::model::recorded(m, y, "OOB updated"@)
            && m.auto_oob_enabled == enabled && m.enable_dhcp == (enabled && dhcp)
            && crate::api::leases_assigned(x.nodes@, m.nodes@, enabled && dhcp)
            && m == (Simulation { nodes: m.nodes, auto_oob_enabled: enabled, enable_dhcp: enabled && dhcp, ..x }),
        Command::CreateService { interface, name, node_port, service_type, .. } => reply matches Reply::Id(id)
            && !has_key(x.services@, id@) && crate::ops::service_added(x, y, id@, interface@, name@, node_port, service_type),
        Command::DeleteService { service, .. } => crate::model::recorded((Simulation {
            services: y.services,
            modified: x.modified,
            history: x.history,
            ..x
        }), y, "service deleted"@) && y.services@ == x.services@.remove(key_index(x.services@, service@)),
        Command::CreateInstruction { node, data, run_again_on_rebuild, .. } => reply matches Reply::Id(id)
            && !has_key(x.instructions@, id@) && crate::instr::instruction_added(x, y, id@, node@, data, run_again_on_rebuild),
        Command::DeleteInstruction { instruction, .. } => crate::model::recorded((Simulation {
            instructions: y.instructions,
            modified: x.modified,
            history: x.history,
            ..x
        }), y, "node instruction deleted"@)
            && y.instructions@ == x.instructions@.remove(key_index(x.instructions@, instruction@)),
        Command::CreateZtp { content, .. } => crate::model::recorded((Simulation { ztp_script: Some(content), ..x }), y,
            "ZTP script created"@),
        Command::UpdateZtp { content, .. } => crate::model::recorded((Simulation { ztp_script: Some(content), ..x }), y,
            "ZTP script updated"@),
        Command::DeleteZtp { .. } => crate::model::recorded((Simulation { ztp_script: None, ..x }), y, "ZTP script deleted"@),
        Command::Checkpoint { name, .. } => reply matches Reply::Id(id) && !has_key(x.checkpoints@, id@)
            && crate::lifecycle::checkpoint_created(x, y, id@, name@),
        Command::DeleteCheckpoint { checkpoint, .. } => exists|mid: Simulation| #[trigger] crate::model::recorded(mid, y,
            "checkpoint deleted"@) && mid == (Simulation { checkpoints: mid.checkpoints, ..x })
            && mid.checkpoints@ == x.checkpoints@.remove(key_index(x.checkpoints@, checkpoint@)),
        Command::ResetNodes { nodes, rebuild, .. } => exists|m1: Simulation, m2: Simulation, m3: Simulation|
            #[trigger] crate::lifecycle::reset_steps(x, m1, m2, m3, y, nodes@, rebuild),
        Command::Transfer { source, destination, bytes, .. } => reply matches Reply::Transmission(t)
            && crate::topology::transferred(x, y, source@, destination@, bytes, t),
        _ => false,
    }
}

/// A successful edit changed only its target simulation, as its operation states.
pub open spec fn edit_done(a: Simulator, b: Simulator, c: Command, reply: Reply) -> bool {
    let id = edit_target(c);
    &&& others_kept(a, b, id)
    &&& edit_effect(keyed(a.simulations@, id), keyed(b.simulations@, id), c, reply)
}

proof fn lemma_kept(a: Simulator, b: Simulator, k: int)
    requires
        a.wf(),
        b.wf(),
        0 <= k < a.simulations@.len(),
        b.simulations@ == a.simulations@.update(k, b.simulations@[k]),
        b.simulations@[k].id@ == a.simulations@[k].id@,
    ensures
        others_kept(a, b, a.simulations@[k].id@),
        keyed(a.simulations@, a.simulations@[k].id@) == a.simulations@[k],
        keyed(b.simulations@, a.simulations@[k].id@) == b.simulations@[k],
{
    lemma_index_of_key(a.simulations@, k);
    lemma_index_of_key(b.simulations@, k);
    assert(a.simulations@[k].key() == a.simulations@[k].id@);
    assert(b.simulations@[k].key() == a.simulations@[k].id@);
    assert forall|i: int| 0 <= i < a.simulations@.len() && a.simulations@[i].id@ != a.simulations@[k].id@
        implies #[trigger] b.simulations@[i] == a.simulations@[i] by {
        assert(i != k);
    }
}

/// A session with simulation `k` replaced by `s` of the same identifier stays well formed.
proof fn lemma_replaced(a: Simulator, b: Simulator, k: int)
    requires
        a.wf(),
        0 <= k < a.simulations@.len(),
        b.max_simulations == a.max_simulations,
        b.simulations@ == a.simulations@.update(k, b.simulations@[k]),
        b.simulations@[k].wf(),
        b.simulations@[k].id@ == a.simulations@[k].id@,
    ensures
        b.wf(),
        session_kept(a, b) <== same_sim(a.simulations@[k], b.simulations@[k]),
{
    crate::keyed::lemma_update_key(a.simulations@, k, b.simulations@[k]);
    assert forall|i: int| 0 <= i < b.simulations@.len() implies (#[trigger] b.simulations@[i]).wf() by {
        if i != k {
            assert(b.simulations@[i] == a.simulations@[i]);
        }
    }
    if same_sim(a.simulations@[k], b.simulations@[k]) {
        assert forall|i: int| 0 <= i < a.simulations@.len() implies same_sim(#[trigger] a.simulations@[i], b.simulations@[i]) by {
            if i != k {
                assert(b.simulations@[i] == a.simulations@[i]);
            }
        }
    }
}

proof fn lemma_kept_refl(a: Simulator)
    ensures
        session_kept(a, a),
{
}

impl Simulator {
    /// The position of simulation `id`.
    fn position_of(&self, id: &str) -> (r: Result<usize>)
        requires
            self.wf(),
        ensures
            r matches Ok(k) ==> k < self.simulations@.len() && self.simulations@[k as int].id@ == id@,
            r is Err <==> !has_key(self.simulations@, id@),
            r is Err ==> r->Err_0 is NotFound,
    {
        match find(&self.simulations, id) {
            Some(k) => {
                proof { lemma_index_of_key(self.simulations@, k as int); }
                Ok(k)
            },
            None => Err(Error::NotFound(id.to_owned())),
        }
    }
}

impl Simulator {
    /// Applies one command. A command that fails leaves every simulation as it was,
    /// and a query changes nothing.
    #[verifier::spinoff_prover]
    #[verifier::rlimit(50)]
    pub fn execute(&mut self, command: Command) -> (r: Result<Reply>)
        requires
            old(self).wf(),
        ensures
            final(self).wf(),
            final(self).max_simulations == old(self).max_simulations,
            r is Err ==> session_kept(*old(self), *final(self)),
            is_query(command) ==> *final(self) == *old(self),
            r matches Ok(reply) ==> reply_fits(command, reply),
            is_edit(command) ==> (r matches Ok(reply) ==> edit_done(*old(self), *final(self), command, reply)),
            command is List ==> r is Ok,
            command matches Command::AllReduce { simulation, execution, ranks, lengths, finite, reduction }
                ==> (has_key(old(self).simulations@, simulation@) && lengths@.len() == finite@.len()
                    && crate::collective::request_ok(keyed(old(self).simulations@, simulation@),
                        Layout::AllReduce { reduction }, lengths@, finite@, ranks@)
                    && !crate::collective::devices_ok(execution.devices@, execution.timeout_secs, ranks@.len())
                    ==> r->Err_0 is Invalid || r->Err_0 is NoRoute)
                && (has_key(old(self).simulations@, simulation@) && lengths@.len() == finite@.len()
                    && crate::collective::request_ok(keyed(old(self).simulations@, simulation@),
                        Layout::AllReduce { reduction }, lengths@, finite@, ranks@) && ranks@.len() <= 1
                    && !crate::collective::devices_ok(execution.devices@, execution.timeout_secs, ranks@.len())
                    ==> r->Err_0 is Invalid),
            command matches Command::AllGather { simulation, execution, ranks, lengths, finite }
                ==> (has_key(old(self).simulations@, simulation@) && lengths@.len() == finite@.len()
                    && crate::collective::request_ok(keyed(old(self).simulations@, simulation@),
                        Layout::AllGather, lengths@, finite@, ranks@)
                    && !crate::collective::devices_ok(execution.devices@, execution.timeout_secs, ranks@.len())
                    ==> r->Err_0 is Invalid || r->Err_0 is NoRoute),
            command matches Command::ReduceScatter { simulation, execution, ranks, lengths, finite, reduction }
                ==> (has_key(old(self).simulations@, simulation@) && lengths@.len() == finite@.len()
                    && crate::collective::request_ok(keyed(old(self).simulations@, simulation@),
                        Layout::ReduceScatter { reduction }, lengths@, finite@, ranks@)
                    && !crate::collective::devices_ok(execution.devices@, execution.timeout_secs, ranks@.len())
                    ==> r->Err_0 is Invalid || r->Err_0 is NoRoute),
            command matches Command::Broadcast { simulation, execution, ranks, root, length, finite }
                ==> (has_key(old(self).simulations@, simulation@)
                    && crate::collective::request_ok(keyed(old(self).simulations@, simulation@),
                        Layout::Broadcast { root }, seq![length], seq![finite], ranks@)
                    && !crate::collective::devices_ok(execution.devices@, execution.timeout_secs, ranks@.len())
                    ==> r->Err_0 is Invalid || r->Err_0 is NoRoute),
            command matches Command::Import { manifest, attempt_start } ==> (r matches Ok(Reply::Id(key)) ==> {
                let s = final(self).simulations@.last();
                &&& !has_key(old(self).simulations@, key@)
                &&& final(self).simulations@ == old(self).simulations@.push(s)
                &&& s.id@ == key@ && s.name@ == manifest.name@
                &&& exists|s0: Simulation| #[trigger] crate::manifest::built_from(s0, manifest)
                    && (if attempt_start { crate::lifecycle::started(s0, s, None) } else { s == s0 })
            }),
            command matches Command::Export { simulation } ==> {
                &&& (r is Ok <==> has_key(old(self).simulations@, simulation@)
                    && crate::manifest::parents_present(keyed(old(self).simulations@, simulation@)))
                &&& r matches Ok(Reply::Manifest(m)) ==> crate::manifest::exported(m, keyed(old(self).simulations@, simulation@))
            },
            command matches Command::Clone { simulation, name, checkpoint, attempt_start } ==> (r matches Ok(Reply::Id(key)) ==> {
                let s = final(self).simulations@.last();
                &&& has_key(old(self).simulations@, simulation@)
                &&& !has_key(old(self).simulations@, key@)
                &&& final(self).simulations@ == old(self).simulations@.push(s)
                &&& s.id@ == key@ && s.name@ == name@
                &&& s.state == (if attempt_start { State::Active } else { State::Inactive })
            }),
            command matches Command::Resources { simulation } ==> (r matches Ok(Reply::Resources(t)) ==> {
                let x = keyed(old(self).simulations@, simulation@);
                &&& t.cpu == crate::ops::cpu_total(x.nodes@) && t.memory == crate::ops::memory_total(x.nodes@)
                &&& t.storage == crate::ops::storage_total(x.nodes@)
            }),
            command is AllReduce || command is Broadcast || command is AllGather || command is ReduceScatter ==> r is Err,
            command matches Command::AllReduce { simulation, execution, ranks, lengths, finite, reduction }
                ==> (r is Err && r->Err_0 is Unsupported ==> has_key(old(self).simulations@, simulation@)
                    && crate::collective::devices_ok(execution.devices@, execution.timeout_secs, ranks@.len())),
            command matches Command::Broadcast { simulation, execution, ranks, root, length, finite }
                ==> (r is Err && r->Err_0 is Unsupported ==> has_key(old(self).simulations@, simulation@)
                    && crate::collective::devices_ok(execution.devices@, execution.timeout_secs, ranks@.len())),
            command matches Command::AllGather { simulation, execution, ranks, lengths, finite }
                ==> (r is Err && r->Err_0 is Unsupported ==> has_key(old(self).simulations@, simulation@)
                    && crate::collective::devices_ok(execution.devices@, execution.timeout_secs, ranks@.len())),
            command matches Command::ReduceScatter { simulation, execution, ranks, lengths, finite, reduction }
                ==> (r is Err && r->Err_0 is Unsupported ==> has_key(old(self).simulations@, simulation@)
                    && crate::collective::devices_ok(execution.devices@, execution.timeout_secs, ranks@.len())),
            command matches Command::Create { name } ==> {
                &&& old(self).simulations@.len() >= old(self).max_simulations ==> r is Err && r->Err_0 is Conflict
                &&& old(self).simulations@.len() < old(self).max_simulations && crate::api::blank(name@)
                    ==> r is Err && r->Err_0 is Invalid
                &&& r is Err && old(self).simulations@.len() < old(self).max_simulations && !crate::api::blank(name@)
                    ==> r->Err_0 is Conflict && old(self).simulations@.len() > 0
                &&& r matches Ok(Reply::Id(id)) ==> {
                    &&& !has_key(old(self).simulations@, id@)
                    &&& final(self).simulations@.len() == old(self).simulations@.len() + 1
                    &&& final(self).simulations@.subrange(0, old(self).simulations@.len() as int) == old(self).simulations@
                    &&& final(self).simulations@.last().id@ == id@
                    &&& crate::api::fresh(final(self).simulations@.last(), name@)
                }
            },
            command matches Command::Delete { simulation } ==> {
                &&& (r is Ok <==> has_key(old(self).simulations@, simulation@)
                    && keyed(old(self).simulations@, simulation@).state == State::Inactive)
                &&& !has_key(old(self).simulations@, simulation@) ==> r is Err && r->Err_0 is NotFound
                &&& r is Ok ==> final(self).simulations@
                    == old(self).simulations@.filter(crate::keyed::key_is_not::<crate::model::Simulation>(simulation@))
            },
            command matches Command::Get { simulation } ==> (r is Ok <==> has_key(old(self).simulations@, simulation@)),
            command matches Command::History { simulation } ==> (r is Ok <==> has_key(old(self).simulations@, simulation@)),
            command matches Command::HistoryFilters { simulation }
                ==> (r is Ok <==> has_key(old(self).simulations@, simulation@)),
            (command matches Command::Get { simulation } && !has_key(old(self).simulations@, simulation@))
                ==> r is Err && r->Err_0 is NotFound,
            command matches Command::Update { simulation, name } ==> (r is Ok <==> has_key(old(self).simulations@, simulation@)
                && !crate::api::blank(name@)),
            command matches Command::Update { simulation, name } ==> (r is Ok ==> renamed(*old(self), *final(self), simulation@, name@)),
            command matches Command::DeleteLink { simulation, link } ==> (r is Ok <==> has_key(old(self).simulations@, simulation@)
                && keyed(old(self).simulations@, simulation@).state == State::Inactive
                && has_key(keyed(old(self).simulations@, simulation@).links@, link@)),
            command matches Command::SetLink { simulation, link, condition } ==> (r is Ok <==> has_key(old(self).simulations@, simulation@)
                && condition.bandwidth_bps > 0 && condition.latency_ns <= 1_000_000_000_000
                && has_key(keyed(old(self).simulations@, simulation@).links@, link@)),
            command matches Command::DeleteInterface { simulation, interface } ==> (r is Ok <==> has_key(old(self).simulations@, simulation@)
                && keyed(old(self).simulations@, simulation@).state == State::Inactive
                && has_key(keyed(old(self).simulations@, simulation@).interfaces@, interface@)
                && keyed(keyed(old(self).simulations@, simulation@).interfaces@, interface@).split_parent is None
                && keyed(keyed(old(self).simulations@, simulation@).interfaces@, interface@).split_children@.len() == 0),
    {
        if edits(&command) {
            return self.edit(command);
        }
        match command {
            Command::Create { name } => {
                let id = self.create(name.as_str())?;
                Ok(Reply::Id(id))
            },
            Command::List { name, state, offset, limit } => {
                let found = self.list(opt_str(&name), state, offset, limit);
                let mut ids: Vec<String> = Vec::new();
                let mut i: usize = 0;
                while i < found.len()
                    invariant
                        i <= found@.len(),
                    decreases found@.len() - i,
                {
                    ids.push(found[i].id.clone());
                    i += 1;
                }
                Ok(Reply::Simulations(ids))
            },
            Command::Get { simulation } => {
                self.position_of(simulation.as_str())?;
                Ok(Reply::Simulation(simulation))
            },
            Command::Delete { simulation } => {
                self.delete(simulation.as_str())?;
                Ok(Reply::Nothing)
            },
            Command::Import { manifest, attempt_start } => Ok(Reply::Id(self.import(manifest, attempt_start)?)),
            Command::Export { simulation } => {
                let k = self.position_of(simulation.as_str())?;
                proof { lemma_index_of_key(self.simulations@, k as int); }
                Ok(Reply::Manifest(self.simulations[k].export()?))
            },
            Command::Clone { simulation, name, checkpoint, attempt_start } => Ok(Reply::Id(
                self.clone_simulation(simulation.as_str(), name.as_str(), opt_str(&checkpoint), attempt_start)?)),
            Command::History { simulation } => {
                self.position_of(simulation.as_str())?;
                Ok(Reply::History(simulation))
            },
            Command::HistoryFilters { simulation } => {
                let k = self.position_of(simulation.as_str())?;
                Ok(Reply::HistoryFilters(self.simulations[k].history_filters()))
            },
            Command::Resources { simulation } => {
                let k = self.position_of(simulation.as_str())?;
                proof { lemma_index_of_key(self.simulations@, k as int); }
                Ok(Reply::Resources(self.simulations[k].required_resources()?))
            },
            Command::AllReduce { simulation, execution, ranks, lengths, finite, reduction } => {
                let k = self.position_of(simulation.as_str())?;
                proof { lemma_index_of_key(self.simulations@, k as int); }
                if lengths.len() != finite.len() {
                    return Err(Error::Invalid("buffer description mismatch".to_owned()));
                }
                self.simulations[k].collective(&ranks, &Layout::AllReduce { reduction }, &lengths, &finite, &execution)?;
                Ok(Reply::Nothing)
            },
            Command::Broadcast { simulation, execution, ranks, root, length, finite } => {
                let k = self.position_of(simulation.as_str())?;
                proof { lemma_index_of_key(self.simulations@, k as int); }
                let mut lengths: Vec<usize> = Vec::new();
                lengths.push(length);
                let mut flags: Vec<bool> = Vec::new();
                flags.push(finite);
                self.simulations[k].collective(&ranks, &Layout::Broadcast { root }, &lengths, &flags, &execution)?;
                Ok(Reply::Nothing)
            },
            Command::AllGather { simulation, execution, ranks, lengths, finite } => {
                let k = self.position_of(simulation.as_str())?;
                proof { lemma_index_of_key(self.simulations@, k as int); }
                if lengths.len() != finite.len() {
                    return Err(Error::Invalid("buffer description mismatch".to_owned()));
                }
                self.simulations[k].collective(&ranks, &Layout::AllGather, &lengths, &finite, &execution)?;
                Ok(Reply::Nothing)
            },
            Command::ReduceScatter { simulation, execution, ranks, lengths, finite, reduction } => {
                let k = self.position_of(simulation.as_str())?;
                proof { lemma_index_of_key(self.simulations@, k as int); }
                if lengths.len() != finite.len() {
                    return Err(Error::Invalid("buffer description mismatch".to_owned()));
                }
                self.simulations[k].collective(&ranks, &Layout::ReduceScatter { reduction }, &lengths, &finite, &execution)?;
                Ok(Reply::Nothing)
            },
            _ => {
                proof { assert(false); }
                Err(Error::Invalid("not a session command".to_owned()))
            },
        }
    }
}

/// `b` is `a` with simulation `id` renamed to `name`; the others are as they were.
pub open spec fn renamed(a: Simulator, b: Simulator, id: Seq<char>, name: Seq<char>) -> bool {
    &&& b.simulations@.len() == a.simulations@.len()
    &&& has_key(b.simulations@, id)
    &&& keyed(b.simulations@, id).name@ == name
    &&& forall|i: int| 0 <= i < a.simulations@.len() && a.simulations@[i].id@ != id
        ==> #[trigger] b.simulations@[i] == a.simulations@[i]
}

/// An optional string as an optional slice.
fn opt_str(s: &Option<String>) -> (r: Option<&str>)
    ensures
        r is None <==> s is None,
        r matches Some(t) ==> t@ == s->0@,
{
    match s {
        Some(t) => Some(t.as_str()),
        None => None,
    }
}

/// The reply a command gives on success.
pub open spec fn reply_fits(c: Command, r: Reply) -> bool {
    match c {
        Command::Create { .. } | Command::Import { .. } | Command::Clone { .. } | Command::CreateNode { .. }
        | Command::CreateInterface { .. } | Command::CreateLink { .. } | Command::CreateService { .. }
        | Command::CreateInstruction { .. } | Command::Checkpoint { .. } => r is Id,
        Command::Breakout { .. } => r is Ids,
        Command::Get { simulation } => r matches Reply::Simulation(id) && id@ == simulation@,
        Command::List { .. } => r is Simulations,
        Command::Export { .. } => r is Manifest,
        Command::Shutdown { .. } => r is Checkpoint,
        Command::History { simulation } => r matches Reply::History(id) && id@ == simulation@,
        Command::HistoryFilters { .. } => r is HistoryFilters,
        Command::Resources { .. } => r is Resources,
        Command::Transfer { .. } => r is Transmission,
        _ => r is Nothing,
    }
}


/// Commands that change one simulation.
pub open spec fn is_edit(c: Command) -> bool {
    !(c is Create || c is List || c is Get || c is Delete || c is Import || c is Export || c is Clone
        || c is History || c is HistoryFilters || c is Resources || c is AllReduce || c is Broadcast
        || c is AllGather || c is ReduceScatter)
}

/// Lifecycle and node edits, before the interface ones.
pub open spec fn is_first_edit(c: Command) -> bool {
    c is Update || c is Start || c is Shutdown || c is Rebuild || c is CreateNode || c is UpdateNode || c is DeleteNode
}

fn edits(c: &Command) -> (r: bool)
    ensures
        r == is_edit(*c),
{
    match c {
        Command::Create { .. } | Command::List { .. } | Command::Get { .. } | Command::Delete { .. }
        | Command::Import { .. } | Command::Export { .. } | Command::Clone { .. } | Command::History { .. }
        | Command::HistoryFilters { .. } | Command::Resources { .. } | Command::AllReduce { .. }
        | Command::Broadcast { .. } | Command::AllGather { .. } | Command::ReduceScatter { .. } => false,
        _ => true,
    }
}

impl Simulator {
    #[verifier::spinoff_prover]
    #[verifier::rlimit(50)]
    fn edit(&mut self, command: Command) -> (r: Result<Reply>)
        requires
            old(self).wf(),
            is_edit(command),
        ensures
            final(self).wf(),
            final(self).max_simulations == old(self).max_simulations,
            r is Err ==> session_kept(*old(self), *final(self)),
            r matches Ok(reply) ==> reply_fits(command, reply),
            r matches Ok(reply) ==> edit_done(*old(self), *final(self), command, reply),
            command matches Command::Update { simulation, name } ==> (r is Ok <==> has_key(old(self).simulations@, simulation@)
                && !crate::api::blank(name@)),
            command matches Command::Update { simulation, name } ==> (r is Ok ==> renamed(*old(self), *final(self), simulation@, name@)),
            command matches Command::DeleteLink { simulation, link } ==> (r is Ok <==> has_key(old(self).simulations@, simulation@)
                && keyed(old(self).simulations@, simulation@).state == State::Inactive
                && has_key(keyed(old(self).simulations@, simulation@).links@, link@)),
            command matches Command::SetLink { simulation, link, condition } ==> (r is Ok <==> has_key(old(self).simulations@, simulation@)
                && condition.bandwidth_bps > 0 && condition.latency_ns <= 1_000_000_000_000
                && has_key(keyed(old(self).simulations@, simulation@).links@, link@)),
            command matches Command::DeleteInterface { simulation, interface } ==> (r is Ok <==> has_key(old(self).simulations@, simulation@)
                && keyed(old(self).simulations@, simulation@).state == State::Inactive
                && has_key(keyed(old(self).simulations@, simulation@).interfaces@, interface@)
                && keyed(keyed(old(self).simulations@, simulation@).interfaces@, interface@).split_parent is None
                && keyed(keyed(old(self).simulations@, simulation@).interfaces@, interface@).split_children@.len() == 0),
    {
        match command {
            Command::Update { simulation, name } => {
                let k = self.position_of(simulation.as_str())?;
                let ghost a = *self;
                let r = self.simulations[k].update(Some(name.as_str()), None);
                proof {
                    lemma_replaced(a, *self, k as int);
                    lemma_kept(a, *self, k as int);
                    if r is Ok {
                        let t = *self;
                        let mid = choose|mid: crate::model::Simulation| #[trigger] crate::model::recorded(mid, t.simulations@[k as int], "updated"@)
                            && (mid.name@ == name@)
                            && mid == (crate::model::Simulation { name: mid.name, metadata: mid.metadata, ..a.simulations@[k as int] });
                        lemma_index_of_key(a.simulations@, k as int);
                        lemma_index_of_key(t.simulations@, k as int);
                        assert(t.simulations@[k as int].key() == simulation@);
                        assert(renamed(a, t, simulation@, name@));
                    }
                }
                r?;
                Ok(Reply::Nothing)
            },
            Command::Start { simulation, checkpoint } => {
                let k = self.position_of(simulation.as_str())?;
                let ghost a = *self;
                let r = self.simulations[k].start(opt_str(&checkpoint));
                proof { lemma_replaced(a, *self, k as int); lemma_kept(a, *self, k as int); }
                r?;
                Ok(Reply::Nothing)
            },
            Command::Shutdown { simulation, create_checkpoint } => {
                let k = self.position_of(simulation.as_str())?;
                let ghost a = *self;
                let r = self.simulations[k].shutdown(create_checkpoint);
                proof { lemma_replaced(a, *self, k as int); lemma_kept(a, *self, k as int); }
                Ok(Reply::Checkpoint(r?))
            },
            Command::Rebuild { simulation, checkpoint } => {
                let k = self.position_of(simulation.as_str())?;
                let ghost a = *self;
                let r = self.simulations[k].rebuild(opt_str(&checkpoint));
                proof { lemma_replaced(a, *self, k as int); lemma_kept(a, *self, k as int); }
                r?;
                Ok(Reply::Nothing)
            },
            Command::CreateNode { simulation, node } => {
                let k = self.position_of(simulation.as_str())?;
                let ghost a = *self;
                let r = self.simulations[k].create_node(node);
                proof { lemma_replaced(a, *self, k as int); lemma_kept(a, *self, k as int); }
                Ok(Reply::Id(r?))
            },
            Command::UpdateNode { simulation, node_id, node } => {
                let k = self.position_of(simulation.as_str())?;
                let ghost a = *self;
                let r = self.simulations[k].update_node(node_id.as_str(), node);
                proof { lemma_replaced(a, *self, k as int); lemma_kept(a, *self, k as int); }
                r?;
                Ok(Reply::Nothing)
            },
            Command::DeleteNode { simulation, node } => {
                let k = self.position_of(simulation.as_str())?;
                let ghost a = *self;
                let r = self.simulations[k].delete_node(node.as_str());
                proof { lemma_replaced(a, *self, k as int); lemma_kept(a, *self, k as int); }
                r?;
                Ok(Reply::Nothing)
            },
            _ => self.edit_topology(command),
        }
    }

    #[verifier::spinoff_prover]
    #[verifier::rlimit(50)]
    fn edit_topology(&mut self, command: Command) -> (r: Result<Reply>)
        requires
            old(self).wf(),
            is_edit(command),
            !is_first_edit(command),
        ensures
            final(self).wf(),
            final(self).max_simulations == old(self).max_simulations,
            r is Err ==> session_kept(*old(self), *final(self)),
            r matches Ok(reply) ==> reply_fits(command, reply),
            r matches Ok(reply) ==> edit_done(*old(self), *final(self), command, reply),
            command matches Command::DeleteLink { simulation, link } ==> (r is Ok <==> has_key(old(self).simulations@, simulation@)
                && keyed(old(self).simulations@, simulation@).state == State::Inactive
                && has_key(keyed(old(self).simulations@, simulation@).links@, link@)),
            command matches Command::SetLink { simulation, link, condition } ==> (r is Ok <==> has_key(old(self).simulations@, simulation@)
                && condition.bandwidth_bps > 0 && condition.latency_ns <= 1_000_000_000_000
                && has_key(keyed(old(self).simulations@, simulation@).links@, link@)),
            command matches Command::DeleteInterface { simulation, interface } ==> (r is Ok <==> has_key(old(self).simulations@, simulation@)
                && keyed(old(self).simulations@, simulation@).state == State::Inactive
                && has_key(keyed(old(self).simulations@, simulation@).interfaces@, interface@)
                && keyed(keyed(old(self).simulations@, simulation@).interfaces@, interface@).split_parent is None
                && keyed(keyed(old(self).simulations@, simulation@).interfaces@, interface@).split_children@.len() == 0),
    {
        match command {
            Command::CreateInterface { simulation, node, name, interface_type } => {
                let k = self.position_of(simulation.as_str())?;
                let ghost a = *self;
                let r = self.simulations[k].create_interface(node.as_str(), name.as_str(), interface_type);
                proof { lemma_replaced(a, *self, k as int); lemma_kept(a, *self, k as int); }
                Ok(Reply::Id(r?))
            },
            Command::DeleteInterface { simulation, interface } => {
                let k = self.position_of(simulation.as_str())?;
                let ghost a = *self;
                let r = self.simulations[k].delete_interface(interface.as_str());
                proof { lemma_replaced(a, *self, k as int); lemma_kept(a, *self, k as int); }
                r?;
                Ok(Reply::Nothing)
            },
            Command::Breakout { simulation, interface, split_count } => {
                let k = self.position_of(simulation.as_str())?;
                let ghost a = *self;
                let r = self.simulations[k].breakout(interface.as_str(), split_count);
                proof { lemma_replaced(a, *self, k as int); lemma_kept(a, *self, k as int); }
                Ok(Reply::Ids(r?))
            },
            Command::RevertBreakout { simulation, interface } => {
                let k = self.position_of(simulation.as_str())?;
                let ghost a = *self;
                let r = self.simulations[k].revert_breakout(interface.as_str());
                proof { lemma_replaced(a, *self, k as int); lemma_kept(a, *self, k as int); }
                r?;
                Ok(Reply::Nothing)
            },
            Command::CreateLink { simulation, interfaces, condition } => {
                let k = self.position_of(simulation.as_str())?;
                let ghost a = *self;
                let r = self.simulations[k].create_link([interfaces[0].as_str(), interfaces[1].as_str()], condition);
                proof { lemma_replaced(a, *self, k as int); lemma_kept(a, *self, k as int); }
                Ok(Reply::Id(r?))
            },
            Command::DeleteLink { simulation, link } => {
                let k = self.position_of(simulation.as_str())?;
                let ghost a = *self;
                let r = self.simulations[k].delete_link(link.as_str());
                proof { lemma_replaced(a, *self, k as int); lemma_kept(a, *self, k as int); }
                r?;
                Ok(Reply::Nothing)
            },
            Command::SetLink { simulation, link, condition } => {
                let k = self.position_of(simulation.as_str())?;
                let ghost a = *self;
                let r = self.simulations[k].set_link(link.as_str(), condition);
                proof { lemma_replaced(a, *self, k as int); lemma_kept(a, *self, k as int); }
                r?;
                Ok(Reply::Nothing)
            },
            Command::AutoOob { simulation, enabled, dhcp } => {
                let k = self.position_of(simulation.as_str())?;
                let ghost a = *self;
                let r = self.simulations[k].set_auto_oob(enabled, dhcp);
                proof { lemma_replaced(a, *self, k as int); lemma_kept(a, *self, k as int); }
                r?;
                Ok(Reply::Nothing)
            },
            Command::CreateService { simulation, interface, name, node_port, service_type } => {
                let k = self.position_of(simulation.as_str())?;
                let ghost a = *self;
                let r = self.simulations[k].create_service(interface.as_str(), name.as_str(), node_port, service_type);
                proof { lemma_replaced(a, *self, k as int); lemma_kept(a, *self, k as int); }
                Ok(Reply::Id(r?))
            },
            Command::DeleteService { simulation, service } => {
                let k = self.position_of(simulation.as_str())?;
                let ghost a = *self;
                let r = self.simulations[k].delete_service(service.as_str());
                proof { lemma_replaced(a, *self, k as int); lemma_kept(a, *self, k as int); }
                r?;
                Ok(Reply::Nothing)
            },
            Command::CreateInstruction { simulation, node, data, run_again_on_rebuild } => {
                let k = self.position_of(simulation.as_str())?;
                let ghost a = *self;
                let r = self.simulations[k].create_instruction(node.as_str(), data, run_again_on_rebuild);
                proof { lemma_replaced(a, *self, k as int); lemma_kept(a, *self, k as int); }
                Ok(Reply::Id(r?))
            },
            Command::DeleteInstruction { simulation, instruction } => {
                let k = self.position_of(simulation.as_str())?;
                let ghost a = *self;
                let r = self.simulations[k].delete_instruction(instruction.as_str());
                proof { lemma_replaced(a, *self, k as int); lemma_kept(a, *self, k as int); }
                r?;
                Ok(Reply::Nothing)
            },
            Command::CreateZtp { simulation, content } => {
                let k = self.position_of(simulation.as_str())?;
                let ghost a = *self;
                let r = self.simulations[k].create_ztp_script(content);
                proof { lemma_replaced(a, *self, k as int); lemma_kept(a, *self, k as int); }
                r?;
                Ok(Reply::Nothing)
            },
            Command::UpdateZtp { simulation, content } => {
                let k = self.position_of(simulation.as_str())?;
                let ghost a = *self;
                let r = self.simulations[k].update_ztp_script(content);
                proof { lemma_replaced(a, *self, k as int); lemma_kept(a, *self, k as int); }
                r?;
                Ok(Reply::Nothing)
            },
            Command::DeleteZtp { simulation } => {
                let k = self.position_of(simulation.as_str())?;
                let ghost a = *self;
                let r = self.simulations[k].delete_ztp_script();
                proof { lemma_replaced(a, *self, k as int); lemma_kept(a, *self, k as int); }
                r?;
                Ok(Reply::Nothing)
            },
            Command::Checkpoint { simulation, name } => {
                let k = self.position_of(simulation.as_str())?;
                let ghost a = *self;
                let r = self.simulations[k].create_checkpoint(name.as_str());
                proof { lemma_replaced(a, *self, k as int); lemma_kept(a, *self, k as int); }
                Ok(Reply::Id(r?))
            },
            Command::DeleteCheckpoint { simulation, checkpoint } => {
                let k = self.position_of(simulation.as_str())?;
                let ghost a = *self;
                let r = self.simulations[k].delete_checkpoint(checkpoint.as_str());
                proof { lemma_replaced(a, *self, k as int); lemma_kept(a, *self, k as int); }
                r?;
                Ok(Reply::Nothing)
            },
            Command::ResetNodes { simulation, nodes, rebuild } => {
                let k = self.position_of(simulation.as_str())?;
                let ghost a = *self;
                let r = self.simulations[k].reset_nodes(&nodes, rebuild);
                proof { lemma_replaced(a, *self, k as int); lemma_kept(a, *self, k as int); }
                r?;
                Ok(Reply::Nothing)
            },
            Command::Transfer { simulation, source, destination, bytes } => {
                let k = self.position_of(simulation.as_str())?;
                let ghost a = *self;
                let r = self.simulations[k].transfer(source.as_str(), destination.as_str(), bytes);
                proof { lemma_replaced(a, *self, k as int); lemma_kept(a, *self, k as int); }
                Ok(Reply::Transmission(r?))
            },
            _ => {
                proof { assert(false); }
                Err(Error::Invalid("not an edit".to_owned()))
            },
        }
    }
}

} // verus!
