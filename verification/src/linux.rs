//! What the Linux network-namespace backend admits, and its address plan.
use vstd::prelude::*;
use crate::model::{Error, Result, Simulation, State, InterfaceType, invalid, queue_packets};
use crate::incus::{on_infiniband, on_infiniband_checked};
use crate::keyed::str_eq;
use crate::native_fabric::{addr_text, addr_string};
use crate::text::append;

verus! {

/// The backend models Ethernet, needs the model started, bridges at most 240 links,
/// takes only unsplit data interfaces, keeps `simnccl` for the NCCL endpoint, and
/// needs every link's queue to fit in `u32` packets.
pub open spec fn linux_ready(sim: Simulation) -> bool {
    &&& forall|k: int| 0 <= k < sim.nodes@.len() ==> !on_infiniband(#[trigger] sim.nodes@[k])
    &&& sim.state == State::Active
    &&& sim.links@.len() <= 240
    &&& forall|i: int| 0 <= i < sim.interfaces@.len() ==> (#[trigger] sim.interfaces@[i]).interface_type == InterfaceType::Data
        && sim.interfaces@[i].split_children@.len() == 0
    &&& forall|i: int| 0 <= i < sim.interfaces@.len() ==> (#[trigger] sim.interfaces@[i]).name@ != "simnccl"@
    &&& forall|l: int| 0 <= l < sim.links@.len()
        ==> queue_packets((#[trigger] sim.links@[l]).spec.bandwidth_bps, sim.links@[l].spec.latency_ns) <= u32::MAX
}

/// The /24 of link `k`: `10.64.0.0` plus `256 k`.
pub open spec fn linux_subnet(k: int) -> Seq<char> {
    addr_text(0x0a40_0000 + 256 * k) + "/24"@
}

/// The address of end `e` of link `k`: two plus `e` above its subnet.
pub open spec fn linux_address(k: int, e: int) -> Seq<char> {
    addr_text(0x0a40_0000 + 256 * k + 2 + e)
}

impl Simulation {
    /// Whether the Linux backend can build this model; a model that is not started
    /// is a state error, anything else it cannot carry is invalid.
    pub fn linux_admission(&self) -> (r: Result<()>)
        ensures
            r is Ok <==> linux_ready(*self),
            r is Err ==> r->Err_0 is Invalid || r->Err_0 is State,
    {
        let mut k: usize = 0;
        while k < self.nodes.len()
            invariant
                k <= self.nodes@.len(),
                forall|x: int| 0 <= x < k ==> !on_infiniband(#[trigger] self.nodes@[x]),
            decreases self.nodes@.len() - k,
        {
            if on_infiniband_checked(&self.nodes[k]) {
                return Err(invalid("InfiniBand intended state requires the ibsim management backend"));
            }
            k += 1;
        }
        if self.state != State::Active {
            return Err(Error::State("start the model before building its Linux topology".to_owned()));
        }
        if self.links.len() > 240 {
            return Err(invalid("Linux backend supports at most 240 links"));
        }
        let mut i: usize = 0;
        while i < self.interfaces.len()
            invariant
                i <= self.interfaces@.len(),
                forall|x: int| 0 <= x < i ==> (#[trigger] self.interfaces@[x]).interface_type == InterfaceType::Data
                    && self.interfaces@[x].split_children@.len() == 0,
            decreases self.interfaces@.len() - i,
        {
            if self.interfaces[i].interface_type != InterfaceType::Data || self.interfaces[i].split_children.len() > 0 {
                return Err(invalid("Linux backend supports unsplit data interfaces"));
            }
            i += 1;
        }
        let mut i: usize = 0;
        while i < self.interfaces.len()
            invariant
                i <= self.interfaces@.len(),
                forall|x: int| 0 <= x < i ==> (#[trigger] self.interfaces@[x]).name@ != "simnccl"@,
            decreases self.interfaces@.len() - i,
        {
            if str_eq(self.interfaces[i].name.as_str(), "simnccl") {
                return Err(invalid("simnccl is reserved for the NCCL network endpoint"));
            }
            i += 1;
        }
        let mut l: usize = 0;
        while l < self.links.len()
            invariant
                l <= self.links@.len(),
                forall|x: int| 0 <= x < l ==> queue_packets((#[trigger] self.links@[x]).spec.bandwidth_bps,
                    self.links@[x].spec.latency_ns) <= u32::MAX,
            decreases self.links@.len() - l,
        {
            if self.links[l].spec.native_queue_packets().is_err() {
                return Err(invalid("native queue capacity exceeds u32 packets"));
            }
            l += 1;
        }
        Ok(())
    }

    /// The address plan of the Linux backend: each link's /24 by link identifier, and
    /// the address of each link end by interface identifier, both in link order.
    pub fn linux_addresses(&self) -> (r: (Vec<(String, String)>, Vec<(String, String)>))
        requires
            self.links@.len() <= 240,
        ensures
            r.0@.len() == self.links@.len(),
            forall|k: int| 0 <= k < r.0@.len() ==> (#[trigger] r.0@[k]).0@ == self.links@[k].id@
                && r.0@[k].1@ == linux_subnet(k),
            r.1@.len() == 2 * self.links@.len(),
            forall|q: int| 0 <= q < r.1@.len() ==> (#[trigger] r.1@[q]).0@ == self.links@[q / 2].interfaces[q % 2]@
                && r.1@[q].1@ == linux_address(q / 2, q % 2),
    {
        let mut subnets: Vec<(String, String)> = Vec::new();
        let mut addresses: Vec<(String, String)> = Vec::new();
        let mut k: usize = 0;
        while k < self.links.len()
            invariant
                k <= self.links@.len() <= 240,
                subnets@.len() == k && addresses@.len() == 2 * k,
                forall|x: int| 0 <= x < k ==> (#[trigger] subnets@[x]).0@ == self.links@[x].id@
                    && subnets@[x].1@ == linux_subnet(x),
                forall|q: int| 0 <= q < 2 * k ==> (#[trigger] addresses@[q]).0@ == self.links@[q / 2].interfaces[q % 2]@
                    && addresses@[q].1@ == linux_address(q / 2, q % 2),
            decreases self.links@.len() - k,
        {
            let base: u64 = 0x0a40_0000 + 256 * (k as u64);
            let mut subnet = addr_string(base);
            append(&mut subnet, "/24");
            let ghost s0 = subnets@;
            let ghost a0 = addresses@;
            subnets.push((self.links[k].id.clone(), subnet));
            addresses.push((self.links[k].interfaces[0].clone(), addr_string(base + 2)));
            addresses.push((self.links[k].interfaces[1].clone(), addr_string(base + 3)));
            proof {
                assert forall|x: int| 0 <= x < k + 1 implies (#[trigger] subnets@[x]).0@ == self.links@[x].id@
                    && subnets@[x].1@ == linux_subnet(x) by {
                    if x < k {
                        assert(subnets@[x] == s0[x]);
                    }
                }
                assert forall|q: int| 0 <= q < 2 * (k + 1) implies (#[trigger] addresses@[q]).0@
                    == self.links@[q / 2].interfaces[q % 2]@ && addresses@[q].1@ == linux_address(q / 2, q % 2) by {
                    if q < 2 * k {
                        assert(addresses@[q] == a0[q]);
                    } else if q == 2 * k {
                        assert(q / 2 == k && q % 2 == 0);
                    } else {
                        assert(q / 2 == k && q % 2 == 1);
                    }
                }
            }
            k += 1;
        }
        (subnets, addresses)
    }
}


/// Where a kernel transaction of several steps stands: applying a step, restoring
/// every step in order after a failure, or finished.
#[derive(Clone, Copy, Debug, PartialEq, Eq, Structural)]
pub enum Rollback {
    Apply { step: usize },
    /// Restoring `step`; `failures` earlier restorations failed.
    Restore { step: usize, failures: usize },
    /// Every step applied, or a step failed and all were restored, `poisoned` when a
    /// restoration failed too.
    Done { applied: bool, poisoned: bool },
}

/// What the driver does next: run a step, applying it or restoring it, or stop.
#[derive(Clone, Copy, Debug, PartialEq, Eq, Structural)]
pub enum Action {
    Run { step: usize, restoring: bool },
    Stop,
}

/// A transaction of `steps` steps is in a state it can reach.
pub open spec fn rollback_ok(steps: usize, s: Rollback) -> bool {
    match s {
        Rollback::Apply { step } => step < steps,
        Rollback::Restore { step, failures } => step < steps && failures <= step,
        Rollback::Done { applied, poisoned } => !(applied && poisoned),
    }
}

/// The state after the running step reports `ok`.
pub open spec fn rollback_step(steps: usize, s: Rollback, ok: bool) -> Rollback {
    match s {
        Rollback::Apply { step } => if !ok {
            Rollback::Restore { step: 0, failures: 0 }
        } else if step + 1 < steps {
            Rollback::Apply { step: (step + 1) as usize }
        } else {
            Rollback::Done { applied: true, poisoned: false }
        },
        Rollback::Restore { step, failures } => {
            let f = if ok { failures } else { (failures + 1) as usize };
            if step + 1 < steps {
                Rollback::Restore { step: (step + 1) as usize, failures: f }
            } else {
                Rollback::Done { applied: false, poisoned: f > 0 }
            }
        },
        Rollback::Done { .. } => s,
    }
}

/// Where a transaction stands after its steps report `outcomes` in turn.
pub open spec fn rollback_run(steps: usize, s: Rollback, outcomes: Seq<bool>) -> Rollback
    decreases outcomes.len(),
{
    if outcomes.len() == 0 || s is Done {
        s
    } else {
        rollback_run(steps, rollback_step(steps, s, outcomes[0]), outcomes.drop_first())
    }
}

/// Once restoring has begun at step `k`, every later step is restored whatever the
/// restorations report, and the transaction ends failed, poisoned exactly when some
/// restoration failed.
pub proof fn lemma_restore_all(steps: usize, k: usize, failures: usize, outcomes: Seq<bool>)
    requires
        k < steps,
        failures <= k,
        outcomes.len() == steps - k,
    ensures
        rollback_run(steps, Rollback::Restore { step: k, failures }, outcomes)
            == (Rollback::Done { applied: false, poisoned: failures > 0 || outcomes.contains(false) }),
    decreases steps - k,
{
    let s1 = rollback_step(steps, Rollback::Restore { step: k, failures }, outcomes[0]);
    let rest = outcomes.drop_first();
    assert(outcomes.contains(false) <==> (!outcomes[0] || rest.contains(false))) by {
        if outcomes.contains(false) {
            let i = choose|i: int| 0 <= i < outcomes.len() && outcomes[i] == false;
            if i > 0 {
                assert(rest[i - 1] == false);
            }
        }
        if rest.contains(false) {
            let i = choose|i: int| 0 <= i < rest.len() && rest[i] == false;
            assert(outcomes[i + 1] == false);
        }
        if !outcomes[0] {
            assert(outcomes[0] == false);
        }
    }
    assert(outcomes.len() > 0);
    assert(rollback_run(steps, Rollback::Restore { step: k, failures }, outcomes) == rollback_run(steps, s1, rest));
    let f = if outcomes[0] { failures } else { (failures + 1) as usize };
    if k + 1 < steps {
        assert(s1 == Rollback::Restore { step: (k + 1) as usize, failures: f });
        lemma_restore_all(steps, (k + 1) as usize, f, rest);
    } else {
        assert(rest.len() == 0);
        assert(!rest.contains(false));
        assert(s1 == Rollback::Done { applied: false, poisoned: f > 0 });
        assert(rollback_run(steps, s1, rest) == s1);
    }
}

/// A transaction whose step fails is rolled back in full: after the failure, one
/// restoration per step, and it ends failed, poisoned exactly when a restoration failed.
pub proof fn lemma_failure_rolls_back(steps: usize, step: usize, restorations: Seq<bool>)
    requires
        step < steps,
        restorations.len() == steps,
    ensures
        rollback_run(steps, Rollback::Apply { step }, seq![false] + restorations)
            == (Rollback::Done { applied: false, poisoned: restorations.contains(false) }),
{
    let o = seq![false] + restorations;
    assert(o.drop_first() =~= restorations);
    assert(o[0] == false);
    assert(rollback_step(steps, Rollback::Apply { step }, false) == Rollback::Restore { step: 0, failures: 0 });
    assert(rollback_run(steps, Rollback::Apply { step }, o)
        == rollback_run(steps, Rollback::Restore { step: 0, failures: 0 }, restorations));
    lemma_restore_all(steps, 0, 0, restorations);
}

/// The first state and action of a transaction: apply step 0, or finish at once
/// when there is nothing to do.
pub fn rollback_start(steps: usize) -> (r: (Rollback, Action))
    ensures
        rollback_ok(steps, r.0),
        steps == 0 ==> r == (Rollback::Done { applied: true, poisoned: false }, Action::Stop),
        steps > 0 ==> r == (Rollback::Apply { step: 0 }, Action::Run { step: 0, restoring: false }),
{
    if steps == 0 {
        (Rollback::Done { applied: true, poisoned: false }, Action::Stop)
    } else {
        (Rollback::Apply { step: 0 }, Action::Run { step: 0, restoring: false })
    }
}

/// The next state and action once the running step reports `ok`. A failed step
/// starts restoring every step from the first; each restoration is attempted even
/// when an earlier one failed; the transaction then ends failed, and poisoned
/// exactly when some restoration failed.
pub fn rollback_next(steps: usize, s: Rollback, ok: bool) -> (r: (Rollback, Action))
    requires
        rollback_ok(steps, s),
    ensures
        rollback_ok(steps, r.0),
        r.0 == rollback_step(steps, s, ok),
        s is Done ==> r == (s, Action::Stop),
        s matches Rollback::Apply { step } ==> r == (if !ok {
            (Rollback::Restore { step: 0, failures: 0 }, Action::Run { step: 0, restoring: true })
        } else if step + 1 < steps {
            (Rollback::Apply { step: (step + 1) as usize }, Action::Run { step: (step + 1) as usize, restoring: false })
        } else {
            (Rollback::Done { applied: true, poisoned: false }, Action::Stop)
        }),
        s matches Rollback::Restore { step, failures } ==> {
            let f = if ok { failures } else { (failures + 1) as usize };
            r == (if step + 1 < steps {
                (Rollback::Restore { step: (step + 1) as usize, failures: f }, Action::Run { step: (step + 1) as usize, restoring: true })
            } else {
                (Rollback::Done { applied: false, poisoned: f > 0 }, Action::Stop)
            })
        },
{
    match s {
        Rollback::Apply { step } => {
            if !ok {
                (Rollback::Restore { step: 0, failures: 0 }, Action::Run { step: 0, restoring: true })
            } else if step + 1 < steps {
                (Rollback::Apply { step: step + 1 }, Action::Run { step: step + 1, restoring: false })
            } else {
                (Rollback::Done { applied: true, poisoned: false }, Action::Stop)
            }
        },
        Rollback::Restore { step, failures } => {
            let f = if ok { failures } else { failures + 1 };
            if step + 1 < steps {
                (Rollback::Restore { step: step + 1, failures: f }, Action::Run { step: step + 1, restoring: true })
            } else {
                (Rollback::Done { applied: false, poisoned: f > 0 }, Action::Stop)
            }
        },
        Rollback::Done { .. } => (s, Action::Stop),
    }
}

} // verus!
