#![verifier::loop_isolation(false)]
//! Shapes and placement of collective requests. Collectives run only on a native
//! NCCL backend; this library checks requests and carries no collective arithmetic.
use vstd::prelude::*;
use crate::model::{Error, Result, Role, State, Simulation, Node};
use crate::keyed::{has_key, keyed, str_eq, find};
use crate::topology::{graph_fits, graph_fault, active_node};

verus! {

#[derive(Clone, Copy, Debug, PartialEq, Eq, Structural)]
pub enum Reduction {
    Sum,
    Product,
    Min,
    Max,
    Average,
}

/// A collective request without its element values: the values are floating point
/// and stay with the caller, which reports each buffer's length and whether all of
/// its elements are finite.
#[derive(Clone, Copy, Debug, PartialEq, Eq, Structural)]
pub enum Layout {
    AllReduce { reduction: Reduction },
    Broadcast { root: usize },
    AllGather,
    ReduceScatter { reduction: Reduction },
}

#[derive(Clone, Debug)]
pub struct NcclOptions {
    /// CUDA ordinals visible to this process, in rank order. Empty selects 0..nranks.
    pub devices: Vec<i32>,
    /// Deadline for execution.
    pub timeout_secs: u64,
}

impl Default for NcclOptions {
    fn default() -> (r: Self)
        ensures
            r.devices@.len() == 0 && r.timeout_secs == 60,
    {
        NcclOptions { devices: Vec::new(), timeout_secs: 60 }
    }
}

#[derive(Clone, Debug)]
pub struct RankTraffic {
    pub node: String,
    /// Kernel interface counters including NCCL bootstrap and collective traffic.
    pub tx_bytes: u64,
    pub rx_bytes: u64,
}

/// The devices a request with `ranks` ranks runs on.
pub open spec fn chosen_devices(devices: Seq<i32>, ranks: nat) -> Seq<i32> {
    if devices.len() == 0 { Seq::new(ranks, |i: int| i as i32) } else { devices }
}

pub open spec fn distinct(s: Seq<i32>) -> bool {
    forall|i: int, j: int| 0 <= i < s.len() && 0 <= j < s.len() && i != j ==> s[i] != s[j]
}

/// One distinct non-negative device per rank, 1..=4096 ranks, a 1..=3600 s timeout.
pub open spec fn devices_ok(devices: Seq<i32>, timeout_secs: u64, ranks: nat) -> bool {
    let d = chosen_devices(devices, ranks);
    &&& 1 <= ranks <= 4096 && 1 <= timeout_secs <= 3600
    &&& d.len() == ranks
    &&& forall|i: int| 0 <= i < d.len() ==> #[trigger] d[i] >= 0
    &&& distinct(d)
}

/// A request that passes every check of a collective but connectivity and the
/// execution options: the simulation is active, the buffers fit the layout, the
/// ranks are distinct active hosts, and the routing graph can be built.
pub open spec fn request_ok(sim: Simulation, layout: Layout, lengths: Seq<usize>, finite: Seq<bool>, ranks: Seq<String>) -> bool {
    &&& sim.state == State::Active && shape_ok(layout, lengths, finite, ranks.len())
    &&& distinct_names(ranks) && all_hosts(sim.nodes@, ranks)
    &&& graph_fits(sim) && graph_fault(sim) is None
    &&& forall|i: int| 0 <= i < ranks.len() ==> active_node(sim, (#[trigger] ranks[i])@)
}

impl NcclOptions {
    /// The CUDA device of each rank.
    pub fn devices_for(&self, ranks: usize) -> (r: Result<Vec<i32>>)
        ensures
            r is Ok <==> devices_ok(self.devices@, self.timeout_secs, ranks as nat),
            r matches Ok(d) ==> d@ == chosen_devices(self.devices@, ranks as nat),
            r is Err ==> r->Err_0 is Invalid,
    {
        if ranks == 0 || ranks > 4096 || self.timeout_secs < 1 || self.timeout_secs > 3600 {
            return Err(Error::Invalid("NCCL requires 1..=4096 ranks and a 1..=3600 second timeout".to_owned()));
        }
        let mut devices: Vec<i32> = Vec::new();
        if self.devices.len() == 0 {
            let mut i: usize = 0;
            while i < ranks
                invariant
                    i <= ranks <= 4096,
                    devices@ == Seq::new(i as nat, |k: int| k as i32),
                decreases ranks - i,
            {
                devices.push(i as i32);
                proof { assert(devices@ =~= Seq::new((i + 1) as nat, |k: int| k as i32)); }
                i += 1;
            }
        } else {
            let mut i: usize = 0;
            while i < self.devices.len()
                invariant
                    i <= self.devices@.len(),
                    devices@ == self.devices@.subrange(0, i as int),
                decreases self.devices@.len() - i,
            {
                devices.push(self.devices[i]);
                proof { assert(devices@ =~= self.devices@.subrange(0, i + 1)); }
                i += 1;
            }
            proof { assert(devices@ =~= self.devices@); }
        }
        proof { assert(devices@ =~= chosen_devices(self.devices@, ranks as nat)); }
        if devices.len() != ranks {
            return Err(Error::Invalid("assign one distinct CUDA device per NCCL rank".to_owned()));
        }
        let mut i: usize = 0;
        while i < devices.len()
            invariant
                i <= devices@.len(),
                forall|a: int| 0 <= a < i ==> #[trigger] devices@[a] >= 0,
                forall|a: int, b: int| 0 <= a < i && 0 <= b < devices@.len() && a != b ==> devices@[a] != devices@[b],
            decreases devices@.len() - i,
        {
            if devices[i] < 0 {
                return Err(Error::Invalid("assign one distinct CUDA device per NCCL rank".to_owned()));
            }
            let mut j: usize = 0;
            while j < devices.len()
                invariant
                    i < devices@.len(),
                    j <= devices@.len(),
                    forall|b: int| 0 <= b < j && b != i ==> devices@[i as int] != #[trigger] devices@[b],
                decreases devices@.len() - j,
            {
                if j != i && devices[j] == devices[i] {
                    return Err(Error::Invalid("assign one distinct CUDA device per NCCL rank".to_owned()));
                }
                j += 1;
            }
            i += 1;
        }
        Ok(devices)
    }
}

/// At most 16 MiB of eight-byte elements, all finite.
pub open spec fn buffer_ok(len: nat, finite: bool) -> bool {
    len <= 2097152 && finite
}

/// Elements per rank going in.
pub open spec fn input_count(layout: Layout, lengths: Seq<usize>) -> int {
    lengths[0] as int
}

/// Elements per rank coming out.
pub open spec fn output_count(layout: Layout, lengths: Seq<usize>, nranks: nat) -> int {
    let count = input_count(layout, lengths);
    match layout {
        Layout::AllGather => count * nranks,
        Layout::ReduceScatter { .. } => count / (nranks as int),
        _ => count,
    }
}

/// What a request must satisfy: 1..=4096 ranks; a broadcast root among them; one
/// buffer per rank of equal length otherwise; sane buffers; a reduce-scatter count
/// divisible by the rank count; at most 64 MiB in and out over all ranks.
pub open spec fn shape_ok(layout: Layout, lengths: Seq<usize>, finite: Seq<bool>, nranks: nat) -> bool {
    let count = input_count(layout, lengths);
    &&& 1 <= nranks <= 4096
    &&& match layout {
        Layout::Broadcast { root } => root < nranks && buffer_ok(lengths[0] as nat, finite[0]),
        _ => lengths.len() == nranks && forall|i: int| 0 <= i < nranks ==>
            buffer_ok(#[trigger] lengths[i] as nat, finite[i]) && lengths[i] == lengths[0],
    }
    &&& (layout is ReduceScatter ==> count % (nranks as int) == 0)
    &&& count * nranks * 8 <= 64 * 1024 * 1024
    &&& output_count(layout, lengths, nranks) * nranks * 8 <= 64 * 1024 * 1024
}

fn check_buffer(len: usize, finite: bool) -> (r: Result<()>)
    ensures
        r is Ok <==> buffer_ok(len as nat, finite),
        r is Err ==> r->Err_0 is Invalid,
{
    if len > 16 * 1024 * 1024 / 8 || !finite {
        return Err(Error::Invalid("NCCL inputs must be finite and at most 16 MiB per rank".to_owned()));
    }
    Ok(())
}

fn memory_limit() -> (e: Error)
    ensures
        e is Invalid,
        e->Invalid_0@ == "NCCL aggregate input/output exceeds 64 MiB"@,
{
    Error::Invalid("NCCL aggregate input/output exceeds 64 MiB".to_owned())
}

/// `Ok` exactly when `size` elements on each of `nranks` ranks stay within 64 MiB.
fn within_memory(size: usize, nranks: usize) -> (r: Result<()>)
    ensures
        r is Ok <==> size * nranks * 8 <= 64 * 1024 * 1024,
        r is Err ==> r->Err_0 is Invalid,
{
    match size.checked_mul(nranks) {
        None => {
            proof {
                assert(size * nranks * 8 > 64 * 1024 * 1024) by (nonlinear_arith)
                    requires size * nranks > usize::MAX, usize::MAX >= 0xffff_ffff;
            }
            Err(memory_limit())
        },
        Some(v) => match v.checked_mul(8) {
            None => Err(memory_limit()),
            Some(b) => if b > 64 * 1024 * 1024 { Err(memory_limit()) } else { Ok(()) },
        },
    }
}

/// Per-rank input and output element counts of a request over `nranks` ranks.
/// `lengths` and `finite` describe the buffers: one for a broadcast, else one per rank.
pub fn shape(layout: &Layout, lengths: &Vec<usize>, finite: &Vec<bool>, nranks: usize) -> (r: Result<(usize, usize)>)
    requires
        lengths@.len() == finite@.len(),
        layout is Broadcast ==> lengths@.len() == 1,
    ensures
        r is Ok <==> shape_ok(*layout, lengths@, finite@, nranks as nat),
        r matches Ok((c, o)) ==> c == input_count(*layout, lengths@) && o == output_count(*layout, lengths@, nranks as nat),
        r is Err ==> r->Err_0 is Invalid,
{
    if nranks == 0 || nranks > 4096 {
        return Err(Error::Invalid("invalid NCCL rank count".to_owned()));
    }
    match layout {
        Layout::Broadcast { root } => {
            if *root >= nranks {
                return Err(Error::Invalid("broadcast root is out of range".to_owned()));
            }
            check_buffer(lengths[0], finite[0])?;
        },
        _ => {
            if lengths.len() != nranks {
                return Err(Error::Invalid("one input buffer per rank is required".to_owned()));
            }
            let count = lengths[0];
            let mut i: usize = 0;
            while i < lengths.len()
                invariant
                    i <= lengths@.len() == nranks,
                    count == lengths@[0],
                    forall|k: int| 0 <= k < i ==> buffer_ok(#[trigger] lengths@[k] as nat, finite@[k]) && lengths@[k] == count,
                decreases lengths@.len() - i,
            {
                check_buffer(lengths[i], finite[i])?;
                if lengths[i] != count {
                    return Err(Error::Invalid("NCCL requires equal input counts".to_owned()));
                }
                i += 1;
            }
        },
    }
    let count = lengths[0];
    let output = match layout {
        Layout::AllGather => match count.checked_mul(nranks) {
            Some(o) => o,
            None => {
                proof {
                    assert(count * nranks * nranks * 8 > 64 * 1024 * 1024) by (nonlinear_arith)
                        requires count * nranks > usize::MAX, usize::MAX >= 0xffff_ffff, nranks >= 1;
                }
                return Err(memory_limit());
            },
        },
        Layout::ReduceScatter { .. } => {
            if count % nranks != 0 {
                return Err(Error::Invalid("reduce-scatter input count must be divisible by rank count".to_owned()));
            }
            count / nranks
        },
        _ => count,
    };
    within_memory(count, nranks)?;
    within_memory(output, nranks)?;
    Ok((count, output))
}

/// Pairwise distinct rank names.
pub open spec fn distinct_names(ranks: Seq<String>) -> bool {
    forall|i: int, j: int| 0 <= i < j < ranks.len() ==> ranks[i]@ != ranks[j]@
}

/// Every rank is a host of the simulation.
pub open spec fn all_hosts(nodes: Seq<Node>, ranks: Seq<String>) -> bool {
    forall|i: int| 0 <= i < ranks.len() ==> has_key(nodes, (#[trigger] ranks[i])@)
        && keyed(nodes, ranks[i]@).spec.role == Role::Host
}

fn check_distinct(ranks: &Vec<String>) -> (r: Result<()>)
    ensures
        r is Ok <==> distinct_names(ranks@),
        r is Err ==> r->Err_0 is Invalid,
{
    let mut i: usize = 0;
    while i < ranks.len()
        invariant
            i <= ranks@.len(),
            forall|a: int, b: int| 0 <= a < b < i ==> ranks@[a]@ != ranks@[b]@,
        decreases ranks@.len() - i,
    {
        let mut j: usize = 0;
        while j < i
            invariant
                i < ranks@.len(),
                j <= i,
                forall|a: int, b: int| 0 <= a < b < i ==> ranks@[a]@ != ranks@[b]@,
                forall|a: int| 0 <= a < j ==> ranks@[a]@ != ranks@[i as int]@,
            decreases i - j,
        {
            if str_eq(ranks[j].as_str(), ranks[i].as_str()) {
                return Err(Error::Invalid("duplicate NCCL rank nodes".to_owned()));
            }
            j += 1;
        }
        i += 1;
    }
    Ok(())
}

impl Simulation {
    fn check_hosts(&self, ranks: &Vec<String>) -> (r: Result<()>)
        requires
            self.wf(),
        ensures
            r is Ok <==> all_hosts(self.nodes@, ranks@),
            r is Err ==> r->Err_0 is NotFound || r->Err_0 is Invalid,
    {
        let mut i: usize = 0;
        while i < ranks.len()
            invariant
                i <= ranks@.len(),
                forall|a: int| 0 <= a < i ==> has_key(self.nodes@, (#[trigger] ranks@[a])@)
                    && keyed(self.nodes@, ranks@[a]@).spec.role == Role::Host,
            decreases ranks@.len() - i,
        {
            match find(&self.nodes, ranks[i].as_str()) {
                None => return Err(Error::NotFound(ranks[i].clone())),
                Some(k) => {
                    proof { crate::keyed::lemma_index_of_key(self.nodes@, k as int); }
                    if self.nodes[k].spec.role != Role::Host {
                        return Err(Error::Invalid("NCCL ranks must be hosts".to_owned()));
                    }
                },
            }
            i += 1;
        }
        Ok(())
    }

    /// Checks a collective over `ranks` (state, shape, distinct host ranks, rank
    /// connectivity, device placement) and runs it. Running needs a native NCCL
    /// backend with CUDA devices, which this library does not have: a request that
    /// passes every check is refused as unsupported.
    pub fn collective(&self, ranks: &Vec<String>, layout: &Layout, lengths: &Vec<usize>, finite: &Vec<bool>,
        options: &NcclOptions) -> (r: Result<()>)
        requires
            self.wf(),
            lengths@.len() == finite@.len(),
            layout is Broadcast ==> lengths@.len() == 1,
        ensures
            r is Err,
            self.state != State::Active ==> r->Err_0 is State,
            self.state == State::Active && !shape_ok(*layout, lengths@, finite@, ranks@.len()) ==> r->Err_0 is Invalid,
            self.state == State::Active && shape_ok(*layout, lengths@, finite@, ranks@.len()) && !distinct_names(ranks@)
                ==> r->Err_0 is Invalid,
            self.state == State::Active && shape_ok(*layout, lengths@, finite@, ranks@.len()) && distinct_names(ranks@)
                && !all_hosts(self.nodes@, ranks@) ==> r->Err_0 is NotFound || r->Err_0 is Invalid,
            r->Err_0 is Unsupported <==> {
                &&& self.state == State::Active && shape_ok(*layout, lengths@, finite@, ranks@.len())
                &&& distinct_names(ranks@) && all_hosts(self.nodes@, ranks@)
                &&& graph_fits(*self) && graph_fault(*self) is None
                &&& forall|i: int| 0 <= i < ranks@.len() ==> active_node(*self, (#[trigger] ranks@[i])@)
                &&& devices_ok(options.devices@, options.timeout_secs, ranks@.len())
                &&& r->Err_0 is Unsupported
            },
            request_ok(*self, *layout, lengths@, finite@, ranks@) && !devices_ok(options.devices@, options.timeout_secs, ranks@.len())
                ==> r->Err_0 is Invalid || r->Err_0 is NoRoute,
            request_ok(*self, *layout, lengths@, finite@, ranks@) && ranks@.len() <= 1 ==> (r->Err_0 is Unsupported
                <==> devices_ok(options.devices@, options.timeout_secs, ranks@.len())),
            request_ok(*self, *layout, lengths@, finite@, ranks@) && ranks@.len() <= 1
                && !devices_ok(options.devices@, options.timeout_secs, ranks@.len()) ==> r->Err_0 is Invalid,
            r->Err_0 is NoRoute ==> request_ok(*self, *layout, lengths@, finite@, ranks@) && ranks@.len() >= 2,
            request_ok(*self, *layout, lengths@, finite@, ranks@) && ranks@.len() >= 2
                && (exists|i: int| 0 <= i < ranks@.len() && crate::topology::isolated(*self, (#[trigger] ranks@[i])@))
                ==> r->Err_0 is NoRoute,
            request_ok(*self, *layout, lengths@, finite@, ranks@) && (exists|i: int, j: int| 0 <= i < j < ranks@.len()
                && !crate::topology::reachable(*self, (#[trigger] ranks@[i])@, (#[trigger] ranks@[j])@))
                ==> r->Err_0 is NoRoute,
    {
        self.active()?;
        shape(layout, lengths, finite, ranks.len())?;
        check_distinct(ranks)?;
        self.check_hosts(ranks)?;
        if self.nodes.len() >= 0xffff_fffe || self.links.len() >= 0x7fff_fffe {
            return Err(Error::Invalid("simulation exceeds the routing index range".to_owned()));
        }
        self.validate_rank_connectivity(ranks)?;
        options.devices_for(ranks.len())?;
        Err(Error::Unsupported(
            "collectives require a native --features nccl build, CUDA GPUs and libnccl; nccl-check cannot execute collectives".to_owned()))
    }

    /// An all-reduce with the given execution options.
    pub fn all_reduce(&self, ranks: &Vec<String>, lengths: &Vec<usize>, finite: &Vec<bool>, reduction: Reduction,
        options: &NcclOptions) -> (r: Result<()>)
        requires
            self.wf(),
            lengths@.len() == finite@.len(),
        ensures
            r is Err,
            r->Err_0 is Unsupported ==> self.state == State::Active
                && shape_ok(Layout::AllReduce { reduction }, lengths@, finite@, ranks@.len())
                && distinct_names(ranks@) && all_hosts(self.nodes@, ranks@),
            r->Err_0 is NoRoute ==> request_ok(*self, Layout::AllReduce { reduction }, lengths@, finite@, ranks@) && ranks@.len() >= 2,
            request_ok(*self, Layout::AllReduce { reduction }, lengths@, finite@, ranks@)
                && !devices_ok(options.devices@, options.timeout_secs, ranks@.len()) ==> r->Err_0 is Invalid || r->Err_0 is NoRoute,
            request_ok(*self, Layout::AllReduce { reduction }, lengths@, finite@, ranks@) && ranks@.len() <= 1
                ==> (r->Err_0 is Unsupported <==> devices_ok(options.devices@, options.timeout_secs, ranks@.len())),
            request_ok(*self, Layout::AllReduce { reduction }, lengths@, finite@, ranks@) && ranks@.len() <= 1
                && !devices_ok(options.devices@, options.timeout_secs, ranks@.len()) ==> r->Err_0 is Invalid,
            request_ok(*self, Layout::AllReduce { reduction }, lengths@, finite@, ranks@) && ranks@.len() >= 2
                && (exists|i: int| 0 <= i < ranks@.len() && crate::topology::isolated(*self, (#[trigger] ranks@[i])@))
                ==> r->Err_0 is NoRoute,
            request_ok(*self, Layout::AllReduce { reduction }, lengths@, finite@, ranks@) && (exists|i: int, j: int| 0 <= i < j < ranks@.len()
                && !crate::topology::reachable(*self, (#[trigger] ranks@[i])@, (#[trigger] ranks@[j])@))
                ==> r->Err_0 is NoRoute,
    {
        self.collective(ranks, &Layout::AllReduce { reduction }, lengths, finite, options)
    }

    /// A broadcast from rank `root` with the given execution options.
    pub fn broadcast(&self, ranks: &Vec<String>, root: usize, length: usize, finite: bool, options: &NcclOptions)
        -> (r: Result<()>)
        requires
            self.wf(),
        ensures
            r is Err,
            r->Err_0 is Unsupported ==> self.state == State::Active
                && shape_ok(Layout::Broadcast { root }, seq![length], seq![finite], ranks@.len())
                && distinct_names(ranks@) && all_hosts(self.nodes@, ranks@),
            r->Err_0 is NoRoute ==> request_ok(*self, Layout::Broadcast { root }, seq![length], seq![finite], ranks@)
                && ranks@.len() >= 2,
            request_ok(*self, Layout::Broadcast { root }, seq![length], seq![finite], ranks@)
                && !devices_ok(options.devices@, options.timeout_secs, ranks@.len()) ==> r->Err_0 is Invalid || r->Err_0 is NoRoute,
            request_ok(*self, Layout::Broadcast { root }, seq![length], seq![finite], ranks@) && ranks@.len() <= 1
                ==> (r->Err_0 is Unsupported <==> devices_ok(options.devices@, options.timeout_secs, ranks@.len())),
            request_ok(*self, Layout::Broadcast { root }, seq![length], seq![finite], ranks@) && ranks@.len() <= 1
                && !devices_ok(options.devices@, options.timeout_secs, ranks@.len()) ==> r->Err_0 is Invalid,
            request_ok(*self, Layout::Broadcast { root }, seq![length], seq![finite], ranks@) && ranks@.len() >= 2
                && (exists|i: int| 0 <= i < ranks@.len() && crate::topology::isolated(*self, (#[trigger] ranks@[i])@))
                ==> r->Err_0 is NoRoute,
            request_ok(*self, Layout::Broadcast { root }, seq![length], seq![finite], ranks@) && (exists|i: int, j: int| 0 <= i < j < ranks@.len()
                && !crate::topology::reachable(*self, (#[trigger] ranks@[i])@, (#[trigger] ranks@[j])@))
                ==> r->Err_0 is NoRoute,
    {
        let mut lengths: Vec<usize> = Vec::new();
        lengths.push(length);
        let mut flags: Vec<bool> = Vec::new();
        flags.push(finite);
        proof {
            assert(lengths@ =~= seq![length]);
            assert(flags@ =~= seq![finite]);
        }
        self.collective(ranks, &Layout::Broadcast { root }, &lengths, &flags, options)
    }

    /// An all-gather with the given execution options.
    pub fn all_gather(&self, ranks: &Vec<String>, lengths: &Vec<usize>, finite: &Vec<bool>, options: &NcclOptions)
        -> (r: Result<()>)
        requires
            self.wf(),
            lengths@.len() == finite@.len(),
        ensures
            r is Err,
            r->Err_0 is Unsupported ==> self.state == State::Active
                && shape_ok(Layout::AllGather, lengths@, finite@, ranks@.len())
                && distinct_names(ranks@) && all_hosts(self.nodes@, ranks@),
            r->Err_0 is NoRoute ==> request_ok(*self, Layout::AllGather, lengths@, finite@, ranks@) && ranks@.len() >= 2,
            request_ok(*self, Layout::AllGather, lengths@, finite@, ranks@)
                && !devices_ok(options.devices@, options.timeout_secs, ranks@.len()) ==> r->Err_0 is Invalid || r->Err_0 is NoRoute,
            request_ok(*self, Layout::AllGather, lengths@, finite@, ranks@) && ranks@.len() <= 1
                ==> (r->Err_0 is Unsupported <==> devices_ok(options.devices@, options.timeout_secs, ranks@.len())),
            request_ok(*self, Layout::AllGather, lengths@, finite@, ranks@) && ranks@.len() <= 1
                && !devices_ok(options.devices@, options.timeout_secs, ranks@.len()) ==> r->Err_0 is Invalid,
            request_ok(*self, Layout::AllGather, lengths@, finite@, ranks@) && ranks@.len() >= 2
                && (exists|i: int| 0 <= i < ranks@.len() && crate::topology::isolated(*self, (#[trigger] ranks@[i])@))
                ==> r->Err_0 is NoRoute,
            request_ok(*self, Layout::AllGather, lengths@, finite@, ranks@) && (exists|i: int, j: int| 0 <= i < j < ranks@.len()
                && !crate::topology::reachable(*self, (#[trigger] ranks@[i])@, (#[trigger] ranks@[j])@))
                ==> r->Err_0 is NoRoute,
    {
        self.collective(ranks, &Layout::AllGather, lengths, finite, options)
    }

    /// A reduce-scatter with the given execution options.
    pub fn reduce_scatter(&self, ranks: &Vec<String>, lengths: &Vec<usize>, finite: &Vec<bool>, reduction: Reduction,
        options: &NcclOptions) -> (r: Result<()>)
        requires
            self.wf(),
            lengths@.len() == finite@.len(),
        ensures
            r is Err,
            r->Err_0 is Unsupported ==> self.state == State::Active
                && shape_ok(Layout::ReduceScatter { reduction }, lengths@, finite@, ranks@.len())
                && distinct_names(ranks@) && all_hosts(self.nodes@, ranks@),
            r->Err_0 is NoRoute ==> request_ok(*self, Layout::ReduceScatter { reduction }, lengths@, finite@, ranks@) && ranks@.len() >= 2,
            request_ok(*self, Layout::ReduceScatter { reduction }, lengths@, finite@, ranks@)
                && !devices_ok(options.devices@, options.timeout_secs, ranks@.len()) ==> r->Err_0 is Invalid || r->Err_0 is NoRoute,
            request_ok(*self, Layout::ReduceScatter { reduction }, lengths@, finite@, ranks@) && ranks@.len() <= 1
                ==> (r->Err_0 is Unsupported <==> devices_ok(options.devices@, options.timeout_secs, ranks@.len())),
            request_ok(*self, Layout::ReduceScatter { reduction }, lengths@, finite@, ranks@) && ranks@.len() <= 1
                && !devices_ok(options.devices@, options.timeout_secs, ranks@.len()) ==> r->Err_0 is Invalid,
            request_ok(*self, Layout::ReduceScatter { reduction }, lengths@, finite@, ranks@) && ranks@.len() >= 2
                && (exists|i: int| 0 <= i < ranks@.len() && crate::topology::isolated(*self, (#[trigger] ranks@[i])@))
                ==> r->Err_0 is NoRoute,
            request_ok(*self, Layout::ReduceScatter { reduction }, lengths@, finite@, ranks@) && (exists|i: int, j: int| 0 <= i < j < ranks@.len()
                && !crate::topology::reachable(*self, (#[trigger] ranks@[i])@, (#[trigger] ranks@[j])@))
                ==> r->Err_0 is NoRoute,
    {
        self.collective(ranks, &Layout::ReduceScatter { reduction }, lengths, finite, options)
    }
}

} // verus!
