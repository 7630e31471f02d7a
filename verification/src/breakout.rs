#![verifier::loop_isolation(false)]
//! Breaking a data interface out into 2, 4 or 8 lanes, and reverting it.
use vstd::prelude::*;
use crate::keyed::{Keyed, has_key, unique_keys, find, str_eq, str_in, key_index, keyed, lemma_index_of_key, lemma_push_key};
use crate::model::{same_sim, Error, ErrorKind, Result, State, InterfaceType, Interface, Simulation, conflict, invalid,
    recorded, outcome};
use crate::text::{utf8, ascii_chars, decimal, bytes, append, decimal_string};
use crate::api::{interface_name_ok, iface_name_taken, mac, mac_text, interfaces_removed};
use crate::keyed::lemma_same_keys;
use crate::outside::new_id;

verus! {

/// The name of lane `i` of interface `parent`: the parent's name, `s`, the lane number.
pub open spec fn lane_name(parent: Seq<char>, i: nat) -> Seq<char> {
    parent + "s"@ + ascii_chars(decimal(i))
}

pub open spec fn lanes_ok(count: usize) -> bool {
    count == 2 || count == 4 || count == 8
}

/// Does a service use interface `id`?
pub open spec fn in_service(s: Simulation, id: Seq<char>) -> bool {
    exists|k: int| 0 <= k < s.services@.len() && (#[trigger] s.services@[k]).interface@ == id
}

/// What fails first when `iface` is broken out into `count` lanes.
/// `count` identifiers for new lanes, none in use and no two alike.
pub open spec fn keys_fresh(a: Simulation, keys: Seq<String>, count: usize) -> bool {
    &&& keys.len() == count
    &&& forall|j: int| 0 <= j < count ==> !has_key(a.interfaces@, (#[trigger] keys[j])@)
    &&& forall|x: int, y: int| 0 <= x < y < count ==> (#[trigger] keys[x])@ != (#[trigger] keys[y])@
}

pub open spec fn breakout_fault(a: Simulation, iface: Seq<char>, count: usize) -> Option<ErrorKind> {
    let p = keyed(a.interfaces@, iface);
    if a.state != State::Inactive {
        Some(ErrorKind::State)
    } else if !has_key(a.interfaces@, iface) {
        Some(ErrorKind::NotFound)
    } else if !lanes_ok(count) || p.interface_type != InterfaceType::Data {
        Some(ErrorKind::Invalid)
    } else if p.connection is Some || p.split_parent is Some || p.split_children@.len() > 0 || in_service(a, iface) {
        Some(ErrorKind::Conflict)
    } else if exists|i: nat| i < count && (!interface_name_ok(utf8(#[trigger] lane_name(p.name@, i)))
        || iface_name_taken(a.interfaces@, p.node@, lane_name(p.name@, i))) {
        Some(ErrorKind::Conflict)
    } else if a.interfaces@.len() + count > a.limits.interfaces || a.next_mac + count > 0x100_0000_0000 {
        Some(ErrorKind::Conflict)
    } else {
        None
    }
}

/// Lane `i` of parent interface `p`, with identifier `id` and MAC number `mac`.
pub open spec fn lane(c: Interface, id: Seq<char>, p: Interface, i: nat, mac: nat) -> bool {
    &&& c.id@ == id && c.node@ == p.node@ && c.name@ == lane_name(p.name@, i)
    &&& c.interface_type == InterfaceType::Data && c.mac_address@ == mac_text(mac)
    &&& c.connection is None && c.split_parent is Some && c.split_parent->0@ == p.id@ && c.split_children@.len() == 0
}

/// `y` is `x` with interface `c` appended, one more MAC used and the creation recorded.
pub open spec fn lane_added(x: Simulation, y: Simulation, c: Interface) -> bool {
    exists|m: Simulation| #[trigger] recorded(m, y, "interface created"@) && m.interfaces@ == x.interfaces@.push(c)
        && m == (Simulation { interfaces: m.interfaces, next_mac: (x.next_mac + 1) as u64, ..x })
}

/// `states` runs from `a` through one lane per child of `children`.
pub open spec fn lanes_added(a: Simulation, p: Interface, children: Seq<String>, states: Seq<Simulation>) -> bool {
    &&& states.len() == children.len() + 1 && states[0] == a
    &&& forall|i: int| 0 <= i < children.len() ==> {
        let c = (#[trigger] states[i + 1]).interfaces@.last();
        &&& lane(c, children[i]@, p, i as nat, (a.next_mac + i) as nat)
        &&& lane_added(states[i], states[i + 1], c)
    }
}

/// `states` add the lanes to `a`; `m` then lists them as `iface`'s children; `b` records the breakout.
pub open spec fn breakout_steps(a: Simulation, b: Simulation, iface: Seq<char>, children: Seq<String>,
    states: Seq<Simulation>, m: Simulation) -> bool {
    let last = states.last();
    let k = key_index(a.interfaces@, iface);
    &&& lanes_added(a, keyed(a.interfaces@, iface), children, states)
    &&& m.interfaces@ == last.interfaces@.update(k, Interface { split_children: m.interfaces@[k].split_children, ..last.interfaces@[k] })
    &&& m.interfaces@[k].split_children@ == children
    &&& m == (Simulation { interfaces: m.interfaces, ..last })
    &&& recorded(m, b, "interface breakout"@)
}

/// `b` is `a` with `children` as lanes of `iface`, recorded as a breakout.
pub open spec fn broken_out(a: Simulation, b: Simulation, iface: Seq<char>, children: Seq<String>) -> bool {
    exists|states: Seq<Simulation>, m: Simulation| #[trigger] breakout_steps(a, b, iface, children, states, m)
}

/// Builds the name of lane `i` of `parent`.
fn lane_string(parent: &str, i: usize) -> (r: String)
    ensures
        r@ == lane_name(parent@, i as nat),
{
    let mut s = parent.to_owned();
    append(&mut s, "s");
    let d = decimal_string(i as u64);
    append(&mut s, d.as_str());
    proof {
        reveal_strlit("s");
    }
    s
}


impl Simulation {
    /// The lane names of interface `k`, each a valid interface name unused on its node.
    fn lane_names(&self, k: usize, count: usize) -> (r: Result<Vec<String>>)
        requires
            k < self.interfaces@.len(),
            count <= 8,
        ensures
            r matches Ok(names) ==> names@.len() == count
                && forall|j: int| 0 <= j < count ==> (#[trigger] names@[j])@ == lane_name(self.interfaces@[k as int].name@, j as nat),
            r is Ok <==> forall|j: nat| j < count ==> interface_name_ok(utf8(#[trigger] lane_name(self.interfaces@[k as int].name@, j)))
                && !iface_name_taken(self.interfaces@, self.interfaces@[k as int].node@, lane_name(self.interfaces@[k as int].name@, j)),
            r is Err ==> r->Err_0 is Conflict,
    {
        let ghost p = self.interfaces@[k as int];
        let mut names: Vec<String> = Vec::new();
        let mut i: usize = 0;
        while i < count
            invariant
                i <= count <= 8,
                p == self.interfaces@[k as int],
                names@.len() == i,
                forall|j: int| 0 <= j < i ==> (#[trigger] names@[j])@ == lane_name(p.name@, j as nat),
                forall|j: nat| j < i ==> interface_name_ok(utf8(#[trigger] lane_name(p.name@, j)))
                    && !iface_name_taken(self.interfaces@, p.node@, lane_name(p.name@, j)),
            decreases count - i,
        {
            let n = lane_string(self.interfaces[k].name.as_str(), i);
            if crate::model::name(n.as_str()).is_err() {
                proof { assert(!interface_name_ok(utf8(lane_name(p.name@, i as nat)))); }
                return Err(conflict("lane name is not a valid interface name"));
            }
            let b = bytes(n.as_str());
            if (b.len() == 2 && b[0] == 0x6c && b[1] == 0x6f) || b.len() > 15 {
                proof {
                    if b@.len() == 2 && b@[0] == 0x6c && b@[1] == 0x6f {
                        assert(b@ =~= seq![0x6cu8, 0x6f]);
                    }
                    assert(!interface_name_ok(utf8(lane_name(p.name@, i as nat))));
                }
                return Err(conflict("lane name exceeds 15 bytes"));
            }
            let mut j: usize = 0;
            while j < self.interfaces.len()
                invariant
                    j <= self.interfaces@.len(),
                    forall|x: int| 0 <= x < j ==> !((#[trigger] self.interfaces@[x]).node@ == p.node@
                        && self.interfaces@[x].name@ == n@),
                decreases self.interfaces@.len() - j,
            {
                if str_eq(self.interfaces[j].node.as_str(), self.interfaces[k].node.as_str())
                    && str_eq(self.interfaces[j].name.as_str(), n.as_str()) {
                    proof {
                        assert(self.interfaces@[j as int].node@ == p.node@ && self.interfaces@[j as int].name@ == n@);
                        assert(iface_name_taken(self.interfaces@, p.node@, lane_name(p.name@, i as nat)));
                    }
                    return Err(conflict("lane name already used on node"));
                }
                j += 1;
            }
            proof {
                assert(b@ != seq![0x6cu8, 0x6f]);
                assert(interface_name_ok(utf8(lane_name(p.name@, i as nat))));
            }
            names.push(n);
            i += 1;
        }
        Ok(names)
    }

    /// Checks identifiers for new lanes: `count` of them, none in use, no two alike.
    fn check_keys(&self, keys: &Vec<String>, count: usize) -> (r: Result<()>)
        ensures
            r is Ok <==> keys_fresh(*self, keys@, count),
            r is Err ==> r->Err_0 is Conflict,
    {
        if keys.len() != count {
            return Err(conflict("interface identifier count"));
        }
        let mut i: usize = 0;
        while i < count
            invariant
                i <= count,
                keys@.len() == count,
                forall|j: int| 0 <= j < i ==> !has_key(self.interfaces@, (#[trigger] keys@[j])@),
                forall|x: int, y: int| 0 <= x < y < i ==> (#[trigger] keys@[x])@ != (#[trigger] keys@[y])@,
            decreases count - i,
        {
            if find(&self.interfaces, keys[i].as_str()).is_some() {
                return Err(conflict("interface identifier collision"));
            }
            let mut j: usize = 0;
            while j < i
                invariant
                    j <= i < count,
                    keys@.len() == count,
                    forall|x: int| 0 <= x < j ==> (#[trigger] keys@[x])@ != keys@[i as int]@,
                decreases i - j,
            {
                if str_eq(keys[j].as_str(), keys[i].as_str()) {
                    return Err(conflict("interface identifier collision"));
                }
                j += 1;
            }
            i += 1;
        }
        Ok(())
    }
}

impl Simulation {
    /// Breaks an unused, unsplit data interface out into `split_count` lanes named
    /// after it, with fresh random identifiers; nothing changes unless every lane can
    /// be created. Identifiers that happen to collide are refused as a conflict.
    pub fn breakout(&mut self, interface: &str, split_count: usize) -> (r: Result<Vec<String>>)
        requires
            old(self).wf(),
        ensures
            final(self).wf(),
            final(self).id == old(self).id,
            r is Err ==> same_sim(*old(self), *final(self)),
            breakout_fault(*old(self), interface@, split_count) matches Some(k) ==> r is Err && r->Err_0.kind() == k,
            r is Ok ==> breakout_fault(*old(self), interface@, split_count) is None,
            r is Err && breakout_fault(*old(self), interface@, split_count) is None ==> r->Err_0 is Conflict,
            r matches Ok(children) ==> children@.len() == split_count
                && broken_out(*old(self), *final(self), interface@, children@),
    {
        let count = if split_count <= 8 { split_count } else { 0 };
        let mut keys: Vec<String> = Vec::new();
        let mut i: usize = 0;
        while i < count
            invariant
                i <= count,
            decreases count - i,
        {
            keys.push(new_id());
            i += 1;
        }
        self.breakout_with_keys(interface, split_count, keys)
    }

    /// The breakout of `interface` into lanes with the identifiers `keys`, one per lane
    /// in order; identifiers that are in use or repeated are refused as a conflict.
    #[verifier::spinoff_prover]
    #[verifier::rlimit(100)]
    pub fn breakout_with_keys(&mut self, interface: &str, split_count: usize, keys: Vec<String>) -> (r: Result<Vec<String>>)
        requires
            old(self).wf(),
        ensures
            breakout_fault(*old(self), interface@, split_count) is None && keys_fresh(*old(self), keys@, split_count) ==> r is Ok,
            r matches Ok(children) ==> children@ == keys@,
            final(self).wf(),
            final(self).id == old(self).id,
            r is Err ==> same_sim(*old(self), *final(self)),
            breakout_fault(*old(self), interface@, split_count) matches Some(k) ==> r is Err && r->Err_0.kind() == k,
            r is Ok ==> breakout_fault(*old(self), interface@, split_count) is None,
            r is Err && breakout_fault(*old(self), interface@, split_count) is None ==> r->Err_0 is Conflict,
            r matches Ok(children) ==> children@.len() == split_count
                && broken_out(*old(self), *final(self), interface@, children@),
    {
        self.inactive()?;
        let k = match find(&self.interfaces, interface) {
            Some(k) => k,
            None => return Err(Error::NotFound(interface.to_owned())),
        };
        proof { lemma_index_of_key(self.interfaces@, k as int); }
        if !(split_count == 2 || split_count == 4 || split_count == 8) || self.interfaces[k].interface_type != InterfaceType::Data {
            return Err(invalid("data interfaces support 2, 4 or 8 lanes"));
        }
        if self.interfaces[k].connection.is_some() || self.interfaces[k].split_parent.is_some()
            || self.interfaces[k].split_children.len() > 0 {
            return Err(conflict("breakout requires an unused unsplit interface"));
        }
        let mut s: usize = 0;
        while s < self.services.len()
            invariant
                s <= self.services@.len(),
                forall|x: int| 0 <= x < s ==> (#[trigger] self.services@[x]).interface@ != interface@,
            decreases self.services@.len() - s,
        {
            if str_eq(self.services[s].interface.as_str(), interface) {
                return Err(conflict("breakout requires an unused unsplit interface"));
            }
            s += 1;
        }
        let ghost p = self.interfaces@[k as int];
        let names = self.lane_names(k, split_count)?;
        if self.interfaces.len() > self.limits.interfaces || split_count > self.limits.interfaces - self.interfaces.len()
            || self.next_mac > 0x100_0000_0000 || split_count as u64 > 0x100_0000_0000 - self.next_mac {
            return Err(conflict("interfaces capacity exceeded"));
        }
        self.check_keys(&keys, split_count)?;
        let ghost a = *self;
        let ghost mut states: Seq<Simulation> = seq![a];
        let mut i: usize = 0;
        while i < split_count
            invariant
                a.wf(),
                self.wf(),
                i <= split_count,
                keys@.len() == split_count && names@.len() == split_count,
                forall|j: int| 0 <= j < split_count ==> (#[trigger] names@[j])@ == lane_name(p.name@, j as nat),
                forall|j: nat| j < split_count ==> interface_name_ok(utf8(#[trigger] lane_name(p.name@, j)))
                    && !iface_name_taken(a.interfaces@, p.node@, lane_name(p.name@, j)),
                forall|j: int| 0 <= j < split_count ==> !has_key(a.interfaces@, (#[trigger] keys@[j])@),
                forall|x: int, y: int| 0 <= x < y < split_count ==> (#[trigger] keys@[x])@ != (#[trigger] keys@[y])@,
                p == a.interfaces@[k as int] && k < a.interfaces@.len(),
                has_key(a.nodes@, p.node@),
                self.interfaces@.len() == a.interfaces@.len() + i,
                self.interfaces@.subrange(0, a.interfaces@.len() as int) == a.interfaces@,
                forall|j: int| 0 <= j < i ==> (#[trigger] self.interfaces@[a.interfaces@.len() + j]).key() == keys@[j]@,
                forall|j: int| 0 <= j < i ==> (#[trigger] self.interfaces@[a.interfaces@.len() + j]).name@ == lane_name(p.name@, j as nat)
                    && self.interfaces@[a.interfaces@.len() + j].node@ == p.node@,
                self.next_mac == a.next_mac + i,
                a.interfaces@.len() + split_count <= a.limits.interfaces,
                a.next_mac + split_count <= 0x100_0000_0000,
                self.limits == a.limits && self.state == a.state && self.id == a.id,
                lanes_added(a, p, keys@.subrange(0, i as int), states),
                states.last() == *self,
            decreases split_count - i,
        {
            let address = mac(self.next_mac);
            let child = Interface {
                id: keys[i].clone(),
                node: self.interfaces[k].node.clone(),
                name: names[i].clone(),
                interface_type: InterfaceType::Data,
                mac_address: address,
                connection: None,
                split_parent: Some(interface.to_owned()),
                split_children: Vec::new(),
            };
            let ghost x = *self;
            let ghost cg = child;
            proof {
                assert forall|j: int| 0 <= j < x.interfaces@.len() implies #[trigger] x.interfaces@[j].key() != cg.key() by {
                    if j < a.interfaces@.len() {
                        assert(x.interfaces@[j] == a.interfaces@[j]);
                    } else {
                        let q = j - a.interfaces@.len();
                        assert(x.interfaces@[a.interfaces@.len() + q].key() == keys@[q]@);
                    }
                }
                lemma_push_key(x.interfaces@, cg);
            }
            self.next_mac = self.next_mac + 1;
            self.interfaces.push(child);
            let ghost m = *self;
            proof {
                let t = *self;
                assert forall|u: int, v: int| 0 <= u < t.interfaces@.len() && 0 <= v < t.interfaces@.len() && u != v
                    && t.interfaces@[u].node@ == t.interfaces@[v].node@
                    implies t.interfaces@[u].name@ != t.interfaces@[v].name@ by {
                    let n = x.interfaces@.len();
                    if u < n && v < n {
                        assert(t.interfaces@[u] == x.interfaces@[u] && t.interfaces@[v] == x.interfaces@[v]);
                    } else if u < n {
                        assert(t.interfaces@[u] == x.interfaces@[u]);
                        if u >= a.interfaces@.len() {
                            let q = u - a.interfaces@.len();
                            assert(x.interfaces@[a.interfaces@.len() + q].name@ == lane_name(p.name@, q as nat));
                            lemma_lane_names_differ(p.name@, q as nat, i as nat);
                        } else {
                            assert(x.interfaces@[u] == a.interfaces@[u]);
                        }
                    } else {
                        assert(t.interfaces@[v] == x.interfaces@[v]);
                        if v >= a.interfaces@.len() {
                            let q = v - a.interfaces@.len();
                            assert(x.interfaces@[a.interfaces@.len() + q].name@ == lane_name(p.name@, q as nat));
                            lemma_lane_names_differ(p.name@, q as nat, i as nat);
                        } else {
                            assert(x.interfaces@[v] == a.interfaces@[v]);
                        }
                    }
                }
                assert forall|u: int| 0 <= u < t.interfaces@.len() implies has_key(t.nodes@, #[trigger] t.interfaces@[u].node@) by {
                    if u < x.interfaces@.len() {
                        assert(t.interfaces@[u] == x.interfaces@[u]);
                    }
                }
                assert forall|u: int| 0 <= u < t.links@.len() implies {
                    &&& has_key(t.interfaces@, #[trigger] t.links@[u].interfaces[0]@)
                    &&& has_key(t.interfaces@, t.links@[u].interfaces[1]@)
                } by {
                    assert(has_key(x.interfaces@, t.links@[u].interfaces[0]@));
                    assert(has_key(x.interfaces@, t.links@[u].interfaces[1]@));
                }
                assert forall|u: int| 0 <= u < t.services@.len() implies has_key(t.interfaces@, #[trigger] t.services@[u].interface@) by {
                    assert(has_key(x.interfaces@, t.services@[u].interface@));
                }
                assert(t.interfaces@.subrange(0, a.interfaces@.len() as int) =~= a.interfaces@);
            }
            self.event("interface created");
            proof {
                crate::model::lemma_recorded_wf(m, *self, "interface created"@);
                assert(lane(cg, keys@[i as int]@, p, i as nat, (a.next_mac + i) as nat));
                assert(lane_added(x, *self, cg));
                let s0 = states;
                states = s0.push(*self);
                assert(keys@.subrange(0, i + 1).drop_last() =~= keys@.subrange(0, i as int));
                assert forall|j: int| 0 <= j < i + 1 implies {
                    let c = (#[trigger] states[j + 1]).interfaces@.last();
                    &&& lane(c, keys@.subrange(0, i + 1)[j]@, p, j as nat, (a.next_mac + j) as nat)
                    &&& lane_added(states[j], states[j + 1], c)
                } by {
                    if j < i {
                        assert(states[j + 1] == s0[j + 1] && states[j] == s0[j]);
                        assert(keys@.subrange(0, i + 1)[j] == keys@.subrange(0, i as int)[j]);
                    }
                }
                assert(lanes_added(a, p, keys@.subrange(0, i + 1), states));
            }
            i += 1;
        }
        proof { assert(keys@.subrange(0, split_count as int) =~= keys@); }
        let ghost last = *self;
        let children = crate::model::clone_strings(&keys);
        self.interfaces[k].split_children = children;
        let ghost m = *self;
        proof {
            let t = *self;
            assert(t.interfaces@[k as int] == last.interfaces@[k as int] || true);
            assert forall|u: int| 0 <= u < t.interfaces@.len() implies #[trigger] t.interfaces@[u].key() == last.interfaces@[u].key() by {}
            crate::keyed::lemma_same_keys(last.interfaces@, t.interfaces@);
            assert forall|u: int| 0 <= u < t.interfaces@.len() implies has_key(t.nodes@, #[trigger] t.interfaces@[u].node@) by {
                assert(t.interfaces@[u].node == last.interfaces@[u].node);
            }
            assert forall|u: int, v: int| 0 <= u < t.interfaces@.len() && 0 <= v < t.interfaces@.len() && u != v
                && t.interfaces@[u].node@ == t.interfaces@[v].node@
                implies t.interfaces@[u].name@ != t.interfaces@[v].name@ by {
                assert(t.interfaces@[u].node == last.interfaces@[u].node && t.interfaces@[u].name == last.interfaces@[u].name);
                assert(t.interfaces@[v].node == last.interfaces@[v].node && t.interfaces@[v].name == last.interfaces@[v].name);
            }
            assert forall|u: int| 0 <= u < t.links@.len() implies {
                &&& has_key(t.interfaces@, #[trigger] t.links@[u].interfaces[0]@)
                &&& has_key(t.interfaces@, t.links@[u].interfaces[1]@)
            } by {
                assert(has_key(last.interfaces@, t.links@[u].interfaces[0]@));
                assert(has_key(last.interfaces@, t.links@[u].interfaces[1]@));
            }
            assert forall|u: int| 0 <= u < t.services@.len() implies has_key(t.interfaces@, #[trigger] t.services@[u].interface@) by {
                assert(has_key(last.interfaces@, t.services@[u].interface@));
            }
            assert(k < a.interfaces@.len());
            assert(last.interfaces@[k as int] == a.interfaces@[k as int]);
            assert(key_index(a.interfaces@, interface@) == k);
            assert(keyed(a.interfaces@, interface@) == p);
            assert(m.interfaces@ =~= last.interfaces@.update(k as int, Interface {
                split_children: m.interfaces@[k as int].split_children, ..last.interfaces@[k as int] }));
        }
        self.event("interface breakout");
        proof {
            crate::model::lemma_recorded_wf(m, *self, "interface breakout"@);
            assert(recorded(m, *self, "interface breakout"@));
            assert(states.last() == last);
            assert(breakout_steps(a, *self, interface@, keys@, states, m));
            assert(broken_out(a, *self, interface@, keys@));
        }
        Ok(keys)
    }
}

/// Lanes of one parent have distinct names.
proof fn lemma_lane_names_differ(parent: Seq<char>, x: nat, y: nat)
    requires
        x < y < 10,
    ensures
        lane_name(parent, x) != lane_name(parent, y),
{
    reveal_strlit("s");
    assert(decimal(x) == seq![(0x30 + x) as u8]);
    assert(decimal(y) == seq![(0x30 + y) as u8]);
    let n = parent.len() + 1;
    assert(lane_name(parent, x)[n as int] == ((0x30 + x) as u8) as char);
    assert(lane_name(parent, y)[n as int] == ((0x30 + y) as u8) as char);
    assert(((0x30 + x) as u8) as char != ((0x30 + y) as u8) as char);
}

/// What fails first when the breakout of `iface` is reverted.
pub open spec fn revert_fault(a: Simulation, iface: Seq<char>) -> Option<ErrorKind> {
    let p = keyed(a.interfaces@, iface);
    if a.state != State::Inactive {
        Some(ErrorKind::State)
    } else if !has_key(a.interfaces@, iface) {
        Some(ErrorKind::NotFound)
    } else if p.split_children@.len() == 0 {
        Some(ErrorKind::Conflict)
    } else if exists|j: int| 0 <= j < p.split_children@.len() && !has_key(a.interfaces@, (#[trigger] p.split_children@[j])@) {
        Some(ErrorKind::NotFound)
    } else if exists|j: int| 0 <= j < p.split_children@.len() && (#[trigger] p.split_children@[j])@ == iface {
        Some(ErrorKind::Conflict)
    } else if exists|j: int| 0 <= j < p.split_children@.len() && (keyed(a.interfaces@, (#[trigger] p.split_children@[j])@).connection is Some
        || in_service(a, p.split_children@[j]@)) {
        Some(ErrorKind::Conflict)
    } else {
        None
    }
}

pub open spec fn revert_steps(a: Simulation, b: Simulation, iface: Seq<char>, m1: Simulation, m2: Simulation) -> bool {
    let k = key_index(m1.interfaces@, iface);
    &&& interfaces_removed(a, m1, keyed(a.interfaces@, iface).split_children@)
    &&& has_key(m1.interfaces@, iface)
    &&& m2.interfaces@ == m1.interfaces@.update(k, Interface { split_children: m2.interfaces@[k].split_children, ..m1.interfaces@[k] })
    &&& m2.interfaces@[k].split_children@.len() == 0
    &&& m2 == (Simulation { interfaces: m2.interfaces, ..m1 })
    &&& recorded(m2, b, "interface breakout reverted"@)
}

impl Simulation {
    /// Removes the lanes of a broken-out interface, when none is connected or in service.
    pub fn revert_breakout(&mut self, interface: &str) -> (r: Result<()>)
        requires
            old(self).wf(),
        ensures
            final(self).wf(),
            r is Err ==> same_sim(*old(self), *final(self)),
            outcome(r) == revert_fault(*old(self), interface@),
            r is Ok ==> exists|m1: Simulation, m2: Simulation| #[trigger] revert_steps(*old(self), *final(self), interface@, m1, m2),
    {
        self.inactive()?;
        let k = match find(&self.interfaces, interface) {
            Some(k) => k,
            None => return Err(Error::NotFound(interface.to_owned())),
        };
        proof { lemma_index_of_key(self.interfaces@, k as int); }
        if self.interfaces[k].split_children.len() == 0 {
            return Err(conflict("interface has no breakout"));
        }
        let ghost p = self.interfaces@[k as int];
        let mut j: usize = 0;
        while j < self.interfaces[k].split_children.len()
            invariant
                p == self.interfaces@[k as int],
                j <= p.split_children@.len(),
                forall|x: int| 0 <= x < j ==> has_key(self.interfaces@, (#[trigger] p.split_children@[x])@),
            decreases p.split_children@.len() - j,
        {
            if find(&self.interfaces, self.interfaces[k].split_children[j].as_str()).is_none() {
                return Err(Error::NotFound(self.interfaces[k].split_children[j].clone()));
            }
            j += 1;
        }
        let mut j: usize = 0;
        while j < self.interfaces[k].split_children.len()
            invariant
                p == self.interfaces@[k as int],
                j <= p.split_children@.len(),
                forall|x: int| 0 <= x < j ==> (#[trigger] p.split_children@[x])@ != interface@,
            decreases p.split_children@.len() - j,
        {
            if str_eq(self.interfaces[k].split_children[j].as_str(), interface) {
                return Err(conflict("interface lists itself as a lane"));
            }
            j += 1;
        }
        let mut j: usize = 0;
        while j < self.interfaces[k].split_children.len()
            invariant
                p == self.interfaces@[k as int],
                j <= p.split_children@.len(),
                forall|x: int| 0 <= x < p.split_children@.len() ==> has_key(self.interfaces@, (#[trigger] p.split_children@[x])@),
                forall|x: int| 0 <= x < p.split_children@.len() ==> (#[trigger] p.split_children@[x])@ != interface@,
                forall|x: int| 0 <= x < j ==> !(keyed(self.interfaces@, (#[trigger] p.split_children@[x])@).connection is Some
                    || in_service(*self, p.split_children@[x]@)),
            decreases p.split_children@.len() - j,
        {
            let c = find(&self.interfaces, self.interfaces[k].split_children[j].as_str()).unwrap();
            proof { lemma_index_of_key(self.interfaces@, c as int); }
            if self.interfaces[c].connection.is_some() {
                return Err(conflict("breakout child is in use"));
            }
            let mut s: usize = 0;
            while s < self.services.len()
                invariant
                    s <= self.services@.len(),
                    j < p.split_children@.len(),
                    forall|x: int| 0 <= x < s ==> (#[trigger] self.services@[x]).interface@ != p.split_children@[j as int]@,
                decreases self.services@.len() - s,
            {
                if str_eq(self.services[s].interface.as_str(), self.interfaces[k].split_children[j].as_str()) {
                    proof { assert(in_service(*self, p.split_children@[j as int]@)); }
                    return Err(conflict("breakout child is in use"));
                }
                s += 1;
            }
            j += 1;
        }
        let ghost a = *self;
        let gone = crate::model::clone_strings(&self.interfaces[k].split_children);
        self.remove_interfaces(&gone);
        let ghost m1 = *self;
        proof {
            assert(!str_in(gone@, interface@)) by {
                if str_in(gone@, interface@) {
                    let x = choose|x: int| 0 <= x < gone@.len() && #[trigger] gone@[x]@ == interface@;
                    assert(p.split_children@[x]@ != interface@);
                }
            }
            assert(has_key(m1.interfaces@, interface@));
        }
        let q = find(&self.interfaces, interface).unwrap();
        proof { lemma_index_of_key(self.interfaces@, q as int); }
        self.interfaces[q].split_children = Vec::new();
        let ghost m2 = *self;
        proof {
            let t = *self;
            assert forall|u: int| 0 <= u < t.interfaces@.len() implies #[trigger] t.interfaces@[u].key() == m1.interfaces@[u].key() by {}
            lemma_same_keys(m1.interfaces@, t.interfaces@);
            assert forall|u: int| 0 <= u < t.interfaces@.len() implies has_key(t.nodes@, #[trigger] t.interfaces@[u].node@) by {
                assert(t.interfaces@[u].node == m1.interfaces@[u].node);
            }
            assert forall|u: int, v: int| 0 <= u < t.interfaces@.len() && 0 <= v < t.interfaces@.len() && u != v
                && t.interfaces@[u].node@ == t.interfaces@[v].node@
                implies t.interfaces@[u].name@ != t.interfaces@[v].name@ by {
                assert(t.interfaces@[u].node == m1.interfaces@[u].node && t.interfaces@[u].name == m1.interfaces@[u].name);
                assert(t.interfaces@[v].node == m1.interfaces@[v].node && t.interfaces@[v].name == m1.interfaces@[v].name);
            }
            assert forall|u: int| 0 <= u < t.links@.len() implies {
                &&& has_key(t.interfaces@, #[trigger] t.links@[u].interfaces[0]@)
                &&& has_key(t.interfaces@, t.links@[u].interfaces[1]@)
            } by {
                assert(has_key(m1.interfaces@, t.links@[u].interfaces[0]@));
                assert(has_key(m1.interfaces@, t.links@[u].interfaces[1]@));
            }
            assert forall|u: int| 0 <= u < t.services@.len() implies has_key(t.interfaces@, #[trigger] t.services@[u].interface@) by {
                assert(has_key(m1.interfaces@, t.services@[u].interface@));
            }
            assert forall|u: int| 0 <= u < t.instructions@.len() implies has_key(t.nodes@, #[trigger] t.instructions@[u].node@) by {
                assert(t.instructions@[u] == a.instructions@[u]);
                assert(has_key(a.nodes@, a.instructions@[u].node@));
            }
            assert(t.wf());
            assert(m2.interfaces@ =~= m1.interfaces@.update(q as int, Interface {
                split_children: m2.interfaces@[q as int].split_children, ..m1.interfaces@[q as int] }));
        }
        self.event("interface breakout reverted");
        proof {
            crate::model::lemma_recorded_wf(m2, *self, "interface breakout reverted"@);
            assert(keyed(a.interfaces@, interface@) == p);
            assert(revert_steps(a, *self, interface@, m1, m2));
        }
        Ok(())
    }
}

} // verus!
