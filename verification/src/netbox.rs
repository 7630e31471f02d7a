//! NetBox snapshots (devices, interfaces, cables) compiled into a manifest of the
//! simulator's validated graph. Fetching the snapshot is the caller's business.
use vstd::prelude::*;
use crate::keyed::str_eq;
use crate::model::{Error, Result, Role, Resources, LinkSpec, Pairs, invalid, unsupported};
use crate::manifest::{Manifest, ManifestInterface, ManifestLink, ManifestNode, Topology};
use crate::api::Simulator;
use crate::text::str_lt;
use crate::text::{ascii_chars, all_ascii, ascii_string, decimal, decimal_string, lemma_decimal_ascii, append};

verus! {

#[derive(Clone, Copy, Debug, PartialEq, Eq, Structural)]
pub enum Medium {
    Ethernet,
    Infiniband,
}

/// How a NetBox scope becomes a manifest.
#[derive(Clone, Debug)]
pub struct NetBoxConfig {
    pub api_url: String,
    pub token_env: String,
    pub allow_http: bool,
    /// Query parameters that select the devices.
    pub device_filter: Pairs,
    /// Role slug to simulator role; a slug not listed is an error.
    pub roles: Vec<(String, Role)>,
    pub medium: Medium,
    pub planned_links_up: bool,
    pub default_bandwidth_bps: Option<u64>,
    pub latency_ns: u64,
    pub image: String,
    pub resources: Resources,
}

/// The environment variable that holds the token, unless configured.
pub fn token_env() -> (r: String)
    ensures
        r@ == "NETBOX_TOKEN"@,
{
    "NETBOX_TOKEN".to_owned()
}

/// Link latency in nanoseconds, unless configured.
pub fn latency() -> (r: u64)
    ensures
        r == 1000,
{
    1000
}

/// Node image, unless configured.
pub fn image() -> (r: String)
    ensures
        r@ == "generic/cachyos"@,
{
    "generic/cachyos".to_owned()
}

#[derive(Clone, Debug)]
pub struct Choice {
    pub value: String,
}

#[derive(Clone, Debug)]
pub struct Reference {
    pub id: u64,
}

#[derive(Clone, Debug)]
pub struct DeviceRole {
    pub slug: String,
}

/// A device. Custom field values are JSON documents in text form.
#[derive(Clone, Debug)]
pub struct Device {
    pub id: u64,
    pub name: String,
    pub role: DeviceRole,
    pub status: Choice,
    pub custom_fields: Pairs,
}

#[derive(Clone, Debug)]
pub struct Interface {
    pub id: u64,
    pub name: String,
    pub device: Reference,
    pub kind: Choice,
    pub enabled: bool,
    pub mgmt_only: bool,
    /// Kilobits per second, as NetBox documents it.
    pub speed: Option<u64>,
    pub cable: Option<Reference>,
    pub lag: Option<Reference>,
    pub parent: Option<Reference>,
    pub bridge: Option<Reference>,
    pub duplex: Option<Choice>,
}

#[derive(Clone, Debug)]
pub struct Termination {
    pub object_type: String,
    pub object_id: u64,
}

#[derive(Clone, Debug)]
pub struct Cable {
    pub id: u64,
    pub status: Choice,
    pub a_terminations: Vec<Termination>,
    pub b_terminations: Vec<Termination>,
}

#[derive(Clone, Debug)]
pub struct Snapshot {
    pub api_url: String,
    pub fetched_at: String,
    pub devices: Vec<Device>,
    pub interfaces: Vec<Interface>,
    pub cables: Vec<Cable>,
}

pub open spec fn starts_with(s: Seq<char>, p: Seq<char>) -> bool {
    p.len() <= s.len() && s.subrange(0, p.len() as int) == p
}

pub open spec fn occurs_at(s: Seq<char>, p: Seq<char>, k: int) -> bool {
    0 <= k && k + p.len() <= s.len() && s.subrange(k, k + p.len()) == p
}

pub open spec fn contains_text(s: Seq<char>, p: Seq<char>) -> bool {
    exists|k: int| #[trigger] occurs_at(s, p, k)
}

/// Whether `p` occurs in `s` at position `k`.
fn matches_at(s: &str, p: &str, k: usize) -> (r: bool)
    requires
        k + p@.len() <= s@.len(),
    ensures
        r == occurs_at(s@, p@, k as int),
{
    let n = s.unicode_len();
    let m = p.unicode_len();
    let mut j: usize = 0;
    while j < m
        invariant
            m == p@.len(),
            n == s@.len(),
            k + m <= s@.len(),
            j <= m,
            forall|x: int| 0 <= x < j ==> s@[k + x] == p@[x],
        decreases m - j,
    {
        if s.get_char(k + j) != p.get_char(j) {
            assert(s@.subrange(k as int, k + m)[j as int] != p@[j as int]);
            return false;
        }
        j += 1;
    }
    assert(s@.subrange(k as int, k + m) =~= p@);
    true
}

pub fn has_prefix(s: &str, p: &str) -> (r: bool)
    ensures
        r == starts_with(s@, p@),
{
    if p.unicode_len() > s.unicode_len() {
        return false;
    }
    matches_at(s, p, 0)
}

pub fn has_infix(s: &str, p: &str) -> (r: bool)
    ensures
        r == contains_text(s@, p@),
{
    let n = s.unicode_len();
    let m = p.unicode_len();
    if m > n {
        assert forall|k: int| !occurs_at(s@, p@, k) by {}
        return false;
    }
    let mut k: usize = 0;
    loop
        invariant
            n == s@.len(),
            m == p@.len(),
            m <= n,
            k <= n - m,
            forall|x: int| 0 <= x < k ==> !#[trigger] occurs_at(s@, p@, x),
        ensures
            forall|x: int| 0 <= x <= n - m ==> !#[trigger] occurs_at(s@, p@, x),
        decreases n - m - k,
    {
        if matches_at(s, p, k) {
            return true;
        }
        if k == n - m {
            break;
        }
        k += 1;
    }
    assert forall|x: int| !#[trigger] occurs_at(s@, p@, x) by {
        if 0 <= x && x + m <= n {
            assert(x <= n - m);
        }
    }
    false
}

/// A data interface of the configured medium.
pub open spec fn is_selected(i: Interface, medium: Medium) -> bool {
    !i.mgmt_only && match medium {
        Medium::Infiniband => starts_with(i.kind.value@, "infiniband-"@),
        Medium::Ethernet => contains_text(i.kind.value@, "base-"@),
    }
}

pub fn selected(i: &Interface, medium: Medium) -> (r: bool)
    ensures
        r == is_selected(*i, medium),
{
    if i.mgmt_only {
        return false;
    }
    match medium {
        Medium::Infiniband => has_prefix(i.kind.value.as_str(), "infiniband-"),
        Medium::Ethernet => has_infix(i.kind.value.as_str(), "base-"),
    }
}

/// The ASCII digit of `d` in base 36.
pub open spec fn digit36(d: nat) -> u8 {
    if d < 10 { (0x30 + d) as u8 } else { (0x61 + d - 10) as u8 }
}

/// Base-36 digits of `n`, least significant first.
pub open spec fn base36_lsd(n: nat) -> Seq<u8>
    decreases n,
{
    if n < 36 {
        seq![digit36(n)]
    } else {
        seq![digit36(n % 36)] + base36_lsd(n / 36)
    }
}

/// The interface name of NetBox interface `id`: `i` and its base-36 digits.
pub open spec fn interface_name_of(id: u64) -> Seq<char> {
    ascii_chars(seq![0x69u8] + base36_lsd(id as nat).reverse())
}

proof fn lemma_base36_ascii(n: nat)
    ensures
        all_ascii(base36_lsd(n)),
        base36_lsd(n).len() >= 1,
    decreases n,
{
    if n >= 36 {
        lemma_base36_ascii(n / 36);
    }
}

/// NetBox identifiers outlive display names; base 36 keeps any `u64` inside
/// the 15-byte interface-name limit of Linux with a letter in front.
pub fn interface_name(id: u64) -> (r: String)
    ensures
        r@ == interface_name_of(id),
{
    let mut digits: Vec<u8> = Vec::new();
    let mut n = id;
    loop
        invariant_except_break
            base36_lsd(id as nat) == digits@ + base36_lsd(n as nat),
        ensures
            base36_lsd(id as nat) == digits@,
        decreases n,
    {
        let d = (n % 36) as u8;
        digits.push(if d < 10 { 0x30 + d } else { 0x61 + d - 10 });
        if n < 36 {
            break;
        }
        n = n / 36;
    }
    let mut out: Vec<u8> = Vec::new();
    out.push(0x69);
    let mut j: usize = digits.len();
    while j > 0
        invariant
            j <= digits@.len(),
            out@ == seq![0x69u8] + digits@.subrange(j as int, digits@.len() as int).reverse(),
        decreases j,
    {
        j -= 1;
        out.push(digits[j]);
        assert(digits@.subrange(j as int, digits@.len() as int).reverse()
            =~= digits@.subrange(j + 1, digits@.len() as int).reverse().push(digits@[j as int]));
    }
    proof {
        lemma_base36_ascii(id as nat);
        assert(digits@.subrange(0, digits@.len() as int) =~= digits@);
        assert(all_ascii(out@)) by {
            assert forall|x: int| 0 <= x < out@.len() implies out@[x] < 128 by {
                if x > 0 {
                    assert(out@[x] == digits@[digits@.len() - x]);
                }
            }
        }
    }
    ascii_string(out)
}

proof fn lemma_digit36(a: nat, b: nat)
    requires
        a < 36,
        b < 36,
        digit36(a) == digit36(b),
    ensures
        a == b,
{
}

proof fn lemma_base36_injective(a: nat, b: nat)
    requires
        base36_lsd(a) == base36_lsd(b),
    ensures
        a == b,
    decreases a,
{
    let x = base36_lsd(a);
    let y = base36_lsd(b);
    assert(x[0] == digit36((a % 36) as nat)) by {
        if a < 36 {
            assert(a % 36 == a);
        }
    }
    assert(y[0] == digit36((b % 36) as nat)) by {
        if b < 36 {
            assert(b % 36 == b);
        }
    }
    lemma_digit36((a % 36) as nat, (b % 36) as nat);
    if a >= 36 && b >= 36 {
        assert(base36_lsd(a / 36) =~= x.subrange(1, x.len() as int));
        assert(base36_lsd(b / 36) =~= y.subrange(1, y.len() as int));
        lemma_base36_injective(a / 36, b / 36);
    } else if a >= 36 {
        lemma_base36_ascii(a / 36);
        assert(x.len() >= 2);
    } else if b >= 36 {
        lemma_base36_ascii(b / 36);
        assert(y.len() >= 2);
    }
}

/// Distinct NetBox interfaces get distinct simulator interface names, so a name
/// follows the identifier through any change of the display name.
pub proof fn lemma_interface_names_distinct(a: u64, b: u64)
    requires
        a != b,
    ensures
        interface_name_of(a) != interface_name_of(b),
{
    if interface_name_of(a) == interface_name_of(b) {
        let x = seq![0x69u8] + base36_lsd(a as nat).reverse();
        let y = seq![0x69u8] + base36_lsd(b as nat).reverse();
        assert(x.len() == interface_name_of(a).len());
        assert forall|i: int| 0 <= i < x.len() implies x[i] == y[i] by {
            assert(interface_name_of(a)[i] == x[i] as char);
            assert(interface_name_of(b)[i] == y[i] as char);
            assert(x[i] < 256 && y[i] < 256);
        }
        assert(x =~= y);
        assert(base36_lsd(a as nat).reverse() =~= x.subrange(1, x.len() as int));
        assert(base36_lsd(b as nat).reverse() =~= y.subrange(1, y.len() as int));
        assert(base36_lsd(a as nat) =~= base36_lsd(a as nat).reverse().reverse());
        assert(base36_lsd(b as nat) =~= base36_lsd(b as nat).reverse().reverse());
        lemma_base36_injective(a as nat, b as nat);
    }
}

/// Whether a device in this status carries traffic, or `None` for a status
/// that is not modeled.
pub open spec fn operating_of(status: Seq<char>, planned: bool) -> Option<bool> {
    if status == "active"@ {
        Some(true)
    } else if status == "planned"@ || status == "staged"@ {
        Some(planned)
    } else if status == "offline"@ || status == "failed"@ || status == "inventory"@ || status == "decommissioning"@ {
        Some(false)
    } else {
        None
    }
}

pub fn operating(status: &str, planned: bool) -> (r: Result<bool>)
    ensures
        r is Ok <==> operating_of(status@, planned) is Some,
        r matches Ok(b) ==> operating_of(status@, planned) == Some(b),
        r is Err ==> r->Err_0 is Unsupported,
{
    if str_eq(status, "active") {
        Ok(true)
    } else if str_eq(status, "planned") || str_eq(status, "staged") {
        Ok(planned)
    } else if str_eq(status, "offline") || str_eq(status, "failed") || str_eq(status, "inventory")
        || str_eq(status, "decommissioning") {
        Ok(false)
    } else {
        Err(Error::Unsupported("NetBox device status".to_owned()))
    }
}

/// Identifiers that are all positive and pairwise distinct.
pub open spec fn ids_ok(ids: Seq<u64>) -> bool {
    &&& forall|i: int| 0 <= i < ids.len() ==> ids[i] > 0
    &&& forall|i: int, j: int| 0 <= i < j < ids.len() ==> ids[i] != ids[j]
}

pub fn unique(ids: &Vec<u64>) -> (r: Result<()>)
    ensures
        r is Ok <==> ids_ok(ids@),
        r is Err ==> r->Err_0 is Invalid,
{
    let mut i: usize = 0;
    while i < ids.len()
        invariant
            i <= ids@.len(),
            forall|x: int| 0 <= x < i ==> ids@[x] > 0,
            forall|x: int, y: int| 0 <= x < y < i ==> ids@[x] != ids@[y],
        decreases ids@.len() - i,
    {
        if ids[i] == 0 {
            return Err(invalid("zero NetBox ID"));
        }
        let mut j: usize = 0;
        while j < i
            invariant
                i < ids@.len(),
                j <= i,
                forall|x: int| 0 <= x < j ==> ids@[x] != ids@[i as int],
            decreases i - j,
        {
            if ids[j] == ids[i] {
                return Err(invalid("duplicate NetBox ID"));
            }
            j += 1;
        }
        i += 1;
    }
    Ok(())
}

pub open spec fn device_ids(s: Seq<Device>) -> Seq<u64> {
    s.map_values(|d: Device| d.id)
}

pub open spec fn interface_ids(s: Seq<Interface>) -> Seq<u64> {
    s.map_values(|i: Interface| i.id)
}

pub open spec fn cable_ids(s: Seq<Cable>) -> Seq<u64> {
    s.map_values(|c: Cable| c.id)
}

/// The JSON text of a string, as `serde_json` writes it.
pub uninterp spec fn json_string_text(s: Seq<char>) -> Seq<char>;

/// `serde_json::to_string` of a `&str`: the quoted, escaped JSON literal of
/// `s`. Serialising a string slice does not fail; the escaping rules are
/// `serde_json`'s and are named here, not spelled out.
#[verifier::external_body]
fn json_string(s: &str) -> (r: String)
    ensures
        r@ == json_string_text(s@),
{
    match serde_json::to_string(s) {
        Ok(t) => t,
        Err(_) => String::new(),
    }
}

/// Bits per second of an interface: its NetBox speed (kbit/s) times 1000 when
/// set and positive, else the configured default.
pub open spec fn rate_of(speed: Option<u64>, default_bps: Option<u64>) -> Option<u64> {
    match speed {
        Some(k) if k > 0 => if k * 1000 <= u64::MAX { Some((k * 1000) as u64) } else { None },
        _ => default_bps,
    }
}

pub fn rate(speed: Option<u64>, default_bps: Option<u64>) -> (r: Result<u64>)
    ensures
        r is Ok <==> (rate_of(speed, default_bps) matches Some(b) && b > 0),
        r matches Ok(b) ==> rate_of(speed, default_bps) == Some(b),
        r is Err ==> r->Err_0 is Invalid,
{
    let bps = match speed {
        Some(k) if k > 0 => match k.checked_mul(1000) {
            Some(b) => b,
            None => return Err(invalid("NetBox speed overflow")),
        },
        _ => match default_bps {
            Some(b) => b,
            None => return Err(invalid("NetBox interface speed is unset; provide default_bandwidth_bps")),
        },
    };
    if bps == 0 {
        return Err(invalid("zero interface bandwidth"));
    }
    Ok(bps)
}

/// Whether a cable in this status is up, or `None` for a status not modeled.
pub open spec fn cable_up_of(status: Seq<char>, planned: bool) -> Option<bool> {
    if status == "connected"@ {
        Some(true)
    } else if status == "planned"@ {
        Some(planned)
    } else if status == "decommissioning"@ {
        Some(false)
    } else {
        None
    }
}

fn cable_up(status: &str, planned: bool) -> (r: Result<bool>)
    ensures
        r is Ok <==> cable_up_of(status@, planned) is Some,
        r matches Ok(b) ==> cable_up_of(status@, planned) == Some(b),
        r is Err ==> r->Err_0 is Unsupported,
{
    if str_eq(status, "connected") {
        Ok(true)
    } else if str_eq(status, "planned") {
        Ok(planned)
    } else if str_eq(status, "decommissioning") {
        Ok(false)
    } else {
        Err(unsupported("NetBox cable status"))
    }
}

/// Half duplex is not modeled.
pub open spec fn duplex_ok(d: Option<Choice>) -> bool {
    d matches Some(c) ==> (c.value@ == "full"@ || c.value@.len() == 0 || c.value@ == "auto"@)
}

pub open spec fn has_device(s: Seq<Device>, id: u64) -> bool {
    exists|k: int| 0 <= k < s.len() && (#[trigger] s[k]).id == id
}

pub open spec fn has_role(s: Seq<(String, Role)>, slug: Seq<char>) -> bool {
    exists|k: int| 0 <= k < s.len() && (#[trigger] s[k]).0@ == slug
}

fn find_device(s: &Vec<Device>, id: u64) -> (r: Option<usize>)
    ensures
        r is None <==> !has_device(s@, id),
        r matches Some(k) ==> k < s@.len() && s@[k as int].id == id,
{
    let mut k: usize = 0;
    while k < s.len()
        invariant
            k <= s@.len(),
            forall|x: int| 0 <= x < k ==> (#[trigger] s@[x]).id != id,
        decreases s@.len() - k,
    {
        if s[k].id == id {
            return Some(k);
        }
        k += 1;
    }
    None
}

fn find_role(s: &Vec<(String, Role)>, slug: &str) -> (r: Option<Role>)
    ensures
        r is None <==> !has_role(s@, slug@),
        r matches Some(x) ==> exists|k: int| 0 <= k < s@.len() && (#[trigger] s@[k]).0@ == slug@ && s@[k].1 == x,
{
    let mut k: usize = 0;
    while k < s.len()
        invariant
            k <= s@.len(),
            forall|x: int| 0 <= x < k ==> (#[trigger] s@[x]).0@ != slug@,
        decreases s@.len() - k,
    {
        if str_eq(s[k].0.as_str(), slug) {
            return Some(s[k].1);
        }
        k += 1;
    }
    None
}

/// What a selected interface needs to become part of the manifest.
pub open spec fn interface_fits(c: NetBoxConfig, s: Snapshot, i: Interface) -> bool {
    &&& has_device(s.devices@, i.device.id)
    &&& forall|k: int| 0 <= k < s.devices@.len() && (#[trigger] s.devices@[k]).id == i.device.id ==> {
        &&& has_role(c.roles@, s.devices@[k].role.slug@)
        &&& operating_of(s.devices@[k].status.value@, c.planned_links_up) is Some
    }
    &&& i.lag is None && i.parent is None && i.bridge is None
    &&& duplex_ok(i.duplex)
    &&& rate_of(i.speed, c.default_bandwidth_bps) matches Some(b) && b > 0
}

/// A selected interface, checked, with what the manifest needs of it.
struct Picked {
    iface: usize,
    device: usize,
    role: Role,
    rate: u64,
    active: bool,
    name: String,
}

fn pick(config: &NetBoxConfig, snapshot: &Snapshot, i: usize) -> (r: Result<Picked>)
    requires
        i < snapshot.interfaces@.len(),
        ids_ok(device_ids(snapshot.devices@)),
    ensures
        r is Ok <==> interface_fits(*config, *snapshot, snapshot.interfaces@[i as int]),
        r matches Ok(p) ==> p.iface == i && p.device < snapshot.devices@.len()
            && snapshot.devices@[p.device as int].id == snapshot.interfaces@[i as int].device.id
            && p.rate > 0 && p.name@ == interface_name_of(snapshot.interfaces@[i as int].id)
            && rate_of(snapshot.interfaces@[i as int].speed, config.default_bandwidth_bps) == Some(p.rate),
{
    let x = &snapshot.interfaces[i];
    let d = match find_device(&snapshot.devices, x.device.id) {
        Some(d) => d,
        None => return Err(Error::NotFound("interface references a device outside the snapshot".to_owned())),
    };
    let dev = &snapshot.devices[d];
    proof {
        assert forall|k: int| 0 <= k < snapshot.devices@.len() && (#[trigger] snapshot.devices@[k]).id == x.device.id
            implies k == d by {
            if k != d {
                assert(device_ids(snapshot.devices@)[k] == snapshot.devices@[k].id);
                assert(device_ids(snapshot.devices@)[d as int] == snapshot.devices@[d as int].id);
                if k < d {
                    assert(device_ids(snapshot.devices@)[k] != device_ids(snapshot.devices@)[d as int]);
                } else {
                    assert(device_ids(snapshot.devices@)[d as int] != device_ids(snapshot.devices@)[k]);
                }
            }
        }
    }
    let role = match find_role(&config.roles, dev.role.slug.as_str()) {
        Some(role) => role,
        None => return Err(invalid("unmapped NetBox device role")),
    };
    if x.lag.is_some() || x.parent.is_some() || x.bridge.is_some() {
        return Err(unsupported("LAG, bridge and parent interfaces require a dedicated model"));
    }
    if let Some(c) = &x.duplex {
        let v = c.value.as_str();
        if !(str_eq(v, "full") || v.unicode_len() == 0 || str_eq(v, "auto")) {
            return Err(unsupported("half-duplex links are not modeled"));
        }
    }
    let bps = rate(x.speed, config.default_bandwidth_bps)?;
    let up = operating(dev.status.value.as_str(), config.planned_links_up)?;
    Ok(Picked { iface: i, device: d, role, rate: bps, active: x.enabled && up, name: interface_name(x.id) })
}

/// Inserts `x` into a strictly increasing sequence, once.
fn insert_sorted(v: &mut Vec<u64>, x: u64)
    requires
        forall|i: int, j: int| 0 <= i < j < old(v)@.len() ==> old(v)@[i] < old(v)@[j],
    ensures
        forall|i: int, j: int| 0 <= i < j < final(v)@.len() ==> final(v)@[i] < final(v)@[j],
        final(v)@.to_set() == old(v)@.to_set().insert(x),
{
    let mut p: usize = 0;
    while p < v.len() && v[p] < x
        invariant
            p <= v@.len(),
            forall|i: int| 0 <= i < p ==> v@[i] < x,
        decreases v@.len() - p,
    {
        p += 1;
    }
    if p < v.len() && v[p] == x {
        assert(v@.to_set() =~= v@.to_set().insert(x));
        return;
    }
    let ghost a = v@;
    v.insert(p, x);
    assert(v@ =~= a.subrange(0, p as int).push(x) + a.subrange(p as int, a.len() as int));
    assert(v@.to_set() =~= a.to_set().insert(x)) by {
        assert forall|y: u64| v@.to_set().contains(y) <==> a.to_set().insert(x).contains(y) by {
            if v@.to_set().contains(y) {
                let k = choose|k: int| 0 <= k < v@.len() && v@[k] == y;
                if k > p {
                    assert(v@[k] == a[k - 1]);
                } else if k < p {
                    assert(v@[k] == a[k]);
                }
            }
            if a.to_set().contains(y) {
                let k = choose|k: int| 0 <= k < a.len() && a[k] == y;
                if k >= p {
                    assert(v@[k + 1] == a[k]);
                } else {
                    assert(v@[k] == a[k]);
                }
            }
            if y == x {
                assert(v@[p as int] == x);
            }
        }
    }
}

/// The NetBox identifier of picked entry `k`.
spec fn picked_id(picked: Seq<Picked>, snapshot: Snapshot, k: int) -> u64 {
    snapshot.interfaces@[picked[k].iface as int].id
}

/// `k` is the first picked entry whose interface has identifier `id`.
spec fn first_picked(picked: Seq<Picked>, snapshot: Snapshot, id: u64, k: int) -> bool {
    &&& 0 <= k < picked.len()
    &&& picked_id(picked, snapshot, k) == id
    &&& forall|j: int| 0 <= j < k ==> picked_id(picked, snapshot, j) != id
}

/// The picked interface with NetBox identifier `id`.
fn find_picked(picked: &Vec<Picked>, snapshot: &Snapshot, id: u64) -> (r: Option<usize>)
    requires
        forall|k: int| 0 <= k < picked@.len() ==> (#[trigger] picked@[k]).iface < snapshot.interfaces@.len(),
    ensures
        r matches Some(k) ==> first_picked(picked@, *snapshot, id, k as int),
        r is None ==> forall|j: int| 0 <= j < picked@.len() ==> picked_id(picked@, *snapshot, j) != id,
{
    let mut k: usize = 0;
    while k < picked.len()
        invariant
            k <= picked@.len(),
            forall|k: int| 0 <= k < picked@.len() ==> (#[trigger] picked@[k]).iface < snapshot.interfaces@.len(),
            forall|j: int| 0 <= j < k ==> picked_id(picked@, *snapshot, j) != id,
        decreases picked@.len() - k,
    {
        if snapshot.interfaces[picked[k].iface].id == id {
            return Some(k);
        }
        k += 1;
    }
    None
}

fn contains_id(v: &Vec<u64>, x: u64) -> (r: bool)
    ensures
        r == v@.contains(x),
{
    let mut k: usize = 0;
    while k < v.len()
        invariant
            k <= v@.len(),
            forall|i: int| 0 <= i < k ==> v@[i] != x,
        decreases v@.len() - k,
    {
        if v[k] == x {
            return true;
        }
        k += 1;
    }
    false
}

fn find_cable(s: &Vec<Cable>, id: u64) -> (r: Option<usize>)
    ensures
        r matches Some(k) ==> k < s@.len() && s@[k as int].id == id
            && forall|j: int| 0 <= j < k ==> s@[j].id != id,
        r is None ==> forall|j: int| 0 <= j < s@.len() ==> s@[j].id != id,
{
    let mut k: usize = 0;
    while k < s.len()
        invariant
            k <= s@.len(),
            forall|j: int| 0 <= j < k ==> s@[j].id != id,
        decreases s@.len() - k,
    {
        if s[k].id == id {
            return Some(k);
        }
        k += 1;
    }
    None
}

/// `nb` and the device's identifier in decimal.
pub open spec fn node_name_of(id: u64) -> Seq<char> {
    "nb"@ + ascii_chars(decimal(id as nat))
}

fn node_name(id: u64) -> (r: String)
    ensures
        r@ == node_name_of(id),
{
    let mut s = "nb".to_owned();
    let d = decimal_string(id);
    append(&mut s, d.as_str());
    s
}

/// `node:interface` of a picked interface.
fn endpoint_of(snapshot: &Snapshot, p: &Picked) -> (r: String)
    requires
        p.device < snapshot.devices@.len(),
    ensures
        r@ == node_name_of(snapshot.devices@[p.device as int].id) + ":"@ + p.name@,
{
    let mut s = node_name(snapshot.devices[p.device].id);
    append(&mut s, ":");
    append(&mut s, p.name.as_str());
    s
}

/// The interface is on cable `id`.
pub open spec fn on_cable(c: Option<Reference>, id: u64) -> bool {
    match c {
        Some(x) => x.id == id,
        None => false,
    }
}

/// Registers the interface of termination `t` of cable `id` as used and returns
/// the picked entry.
fn terminate(picked: &Vec<Picked>, snapshot: &Snapshot, used: &mut Vec<u64>, t: &Termination, id: u64)
    -> (r: Result<usize>)
    requires
        forall|k: int| 0 <= k < picked@.len() ==> (#[trigger] picked@[k]).iface < snapshot.interfaces@.len()
            && picked@[k].device < snapshot.devices@.len(),
    ensures
        (forall|j: int| 0 <= j < picked@.len() ==> picked_id(picked@, *snapshot, j) != t.object_id)
            ==> r is Err && r->Err_0 is NotFound,
        r is Err ==> final(used)@ == old(used)@,
        r matches Ok(k) ==> first_picked(picked@, *snapshot, t.object_id, k as int)
            && on_cable(snapshot.interfaces@[picked@[k as int].iface as int].cable, id)
            && !old(used)@.contains(t.object_id) && final(used)@ == old(used)@.push(t.object_id),
        forall|k: int| first_picked(picked@, *snapshot, t.object_id, k) ==> (r is Ok <==>
            on_cable(snapshot.interfaces@[picked@[k].iface as int].cable, id) && !old(used)@.contains(t.object_id)),
{
    let k = match find_picked(picked, snapshot, t.object_id) {
        Some(k) => k,
        None => return Err(Error::NotFound(
            "cable crosses the selected device/medium boundary; include both endpoint devices".to_owned())),
    };
    let x = &snapshot.interfaces[picked[k].iface];
    let on = match &x.cable {
        Some(c) => c.id == id,
        None => false,
    };
    if !on {
        return Err(invalid("inconsistent interface/cable snapshot"));
    }
    if contains_id(used, x.id) {
        return Err(invalid("interface appears on multiple cables"));
    }
    used.push(x.id);
    Ok(k)
}

/// `c` is the first cable with identifier `id`.
spec fn first_cable(s: Seq<Cable>, id: u64, c: int) -> bool {
    0 <= c < s.len() && s[c].id == id && forall|j: int| 0 <= j < c ==> s[j].id != id
}

/// One termination at each end, both on interfaces.
pub open spec fn single_interfaces(c: Cable) -> bool {
    &&& c.a_terminations@.len() == 1 && c.b_terminations@.len() == 1
    &&& c.a_terminations@[0].object_type@ == "dcim.interface"@
    &&& c.b_terminations@[0].object_type@ == "dcim.interface"@
}

/// The termination `oid` is a picked interface on cable `id`, not yet used.
spec fn end_ok(picked: Seq<Picked>, snapshot: Snapshot, used: Seq<u64>, oid: u64, id: u64) -> bool {
    exists|k: int| first_picked(picked, snapshot, oid, k)
        && on_cable(snapshot.interfaces@[picked[k].iface as int].cable, id) && !used.contains(oid)
}

/// Cable `id` can become a link.
spec fn link_ok(config: NetBoxConfig, snapshot: Snapshot, picked: Seq<Picked>, used: Seq<u64>, id: u64) -> bool {
    exists|c: int| {
        let cable = #[trigger] snapshot.cables@[c];
        &&& first_cable(snapshot.cables@, id, c)
        &&& single_interfaces(cable)
        &&& end_ok(picked, snapshot, used, cable.a_terminations@[0].object_id, id)
        &&& end_ok(picked, snapshot, used.push(cable.a_terminations@[0].object_id), cable.b_terminations@[0].object_id, id)
        &&& cable_up_of(cable.status.value@, config.planned_links_up) is Some
    }
}

/// A picked interface as the snapshot describes it: its device, name and rate.
spec fn picked_described(p: Picked, config: NetBoxConfig, snapshot: Snapshot) -> bool {
    &&& p.iface < snapshot.interfaces@.len() && p.device < snapshot.devices@.len()
    &&& snapshot.devices@[p.device as int].id == snapshot.interfaces@[p.iface as int].device.id
    &&& p.name@ == interface_name_of(snapshot.interfaces@[p.iface as int].id)
    &&& rate_of(snapshot.interfaces@[p.iface as int].speed, config.default_bandwidth_bps) == Some(p.rate)
}

/// `l` joins interfaces `ia` and `ib` of the snapshot: its ends are named
/// `nb<device id>:i<interface id>`, its bandwidth is the smaller of the two
/// interface rates (speed × 1000, or the configured default where no speed is
/// given), and its latency is the configured one.
pub open spec fn link_compiled(l: ManifestLink, config: NetBoxConfig, snapshot: Snapshot, ia: int, ib: int) -> bool {
    let x = snapshot.interfaces@[ia];
    let y = snapshot.interfaces@[ib];
    &&& 0 <= ia < snapshot.interfaces@.len() && 0 <= ib < snapshot.interfaces@.len()
    &&& l.endpoints[0]@ == node_name_of(x.device.id) + ":"@ + interface_name_of(x.id)
    &&& l.endpoints[1]@ == node_name_of(y.device.id) + ":"@ + interface_name_of(y.id)
    &&& rate_of(x.speed, config.default_bandwidth_bps) is Some && rate_of(y.speed, config.default_bandwidth_bps) is Some
    &&& l.condition.bandwidth_bps == (if rate_of(x.speed, config.default_bandwidth_bps)->0 < rate_of(y.speed, config.default_bandwidth_bps)->0 {
        rate_of(x.speed, config.default_bandwidth_bps)->0
    } else {
        rate_of(y.speed, config.default_bandwidth_bps)->0
    })
    &&& l.condition.latency_ns == config.latency_ns
}

/// `l` is the link of a cable between two interfaces of the snapshot.
pub open spec fn cable_compiled(l: ManifestLink, config: NetBoxConfig, snapshot: Snapshot) -> bool {
    exists|ia: int, ib: int| #[trigger] link_compiled(l, config, snapshot, ia, ib)
}

/// `l` is the link of cable `c` between picked entries `ka` and `kb`.
spec fn link_is(l: ManifestLink, config: NetBoxConfig, snapshot: Snapshot, picked: Seq<Picked>, c: int, ka: int, kb: int) -> bool {
    let x = picked[ka];
    let y = picked[kb];
    &&& l.endpoints[0]@ == node_name_of(snapshot.devices@[x.device as int].id) + ":"@ + x.name@
    &&& l.endpoints[1]@ == node_name_of(snapshot.devices@[y.device as int].id) + ":"@ + y.name@
    &&& l.condition.up == (cable_up_of(snapshot.cables@[c].status.value@, config.planned_links_up) == Some(true)
        && x.active && y.active)
    &&& l.condition.bandwidth_bps == (if x.rate < y.rate { x.rate } else { y.rate })
    &&& l.condition.latency_ns == config.latency_ns
}

/// The link for cable `id`, from its two single interface terminations.
fn cable_link(config: &NetBoxConfig, snapshot: &Snapshot, picked: &Vec<Picked>, used: &mut Vec<u64>, id: u64)
    -> (r: Result<ManifestLink>)
    requires
        forall|k: int| 0 <= k < picked@.len() ==> (#[trigger] picked@[k]).iface < snapshot.interfaces@.len()
            && picked@[k].device < snapshot.devices@.len(),
    ensures
        r is Ok <==> link_ok(*config, *snapshot, picked@, old(used)@, id),
        (forall|j: int| 0 <= j < snapshot.cables@.len() ==> snapshot.cables@[j].id != id) ==> r is Err && r->Err_0 is NotFound,
        r matches Ok(l) ==> l.condition.latency_ns == config.latency_ns,
        r matches Ok(l) ==> forall|c: int, ka: int, kb: int| #![trigger link_is(l, *config, *snapshot, picked@, c, ka, kb)]
            first_cable(snapshot.cables@, id, c)
            && first_picked(picked@, *snapshot, snapshot.cables@[c].a_terminations@[0].object_id, ka)
            && first_picked(picked@, *snapshot, snapshot.cables@[c].b_terminations@[0].object_id, kb)
            ==> link_is(l, *config, *snapshot, picked@, c, ka, kb),
        r is Ok ==> exists|c: int| #[trigger] first_cable(snapshot.cables@, id, c)
            && final(used)@ == old(used)@.push(snapshot.cables@[c].a_terminations@[0].object_id)
                .push(snapshot.cables@[c].b_terminations@[0].object_id),
{
    let c = match find_cable(&snapshot.cables, id) {
        Some(c) => c,
        None => return Err(Error::NotFound("cable missing from snapshot".to_owned())),
    };
    let cable = &snapshot.cables[c];
    if cable.a_terminations.len() != 1 || cable.b_terminations.len() != 1 {
        return Err(unsupported("split or unterminated cable"));
    }
    let a = &cable.a_terminations[0];
    let b = &cable.b_terminations[0];
    if !str_eq(a.object_type.as_str(), "dcim.interface") || !str_eq(b.object_type.as_str(), "dcim.interface") {
        return Err(unsupported("cable ends on a passive panel or a non-interface; trace modeling is required"));
    }
    let pa = terminate(picked, snapshot, used, a, id)?;
    let pb = terminate(picked, snapshot, used, b, id)?;
    let connected = cable_up(cable.status.value.as_str(), config.planned_links_up)?;
    let x = &picked[pa];
    let y = &picked[pb];
    let l = ManifestLink {
        endpoints: [endpoint_of(snapshot, x), endpoint_of(snapshot, y)],
        condition: LinkSpec {
            up: connected && x.active && y.active,
            bandwidth_bps: if x.rate < y.rate { x.rate } else { y.rate },
            latency_ns: config.latency_ns,
        },
    };
    proof {
        assert(link_is(l, *config, *snapshot, picked@, c as int, pa as int, pb as int));
        assert forall|c2: int, ka: int, kb: int|
            first_cable(snapshot.cables@, id, c2)
            && first_picked(picked@, *snapshot, snapshot.cables@[c2].a_terminations@[0].object_id, ka)
            && first_picked(picked@, *snapshot, snapshot.cables@[c2].b_terminations@[0].object_id, kb)
            implies link_is(l, *config, *snapshot, picked@, c2, ka, kb) by {
            assert(c2 == c);
            assert(ka == pa);
            assert(kb == pb);
        }
    }
    Ok(l)
}

/// The value of the first entry with key `key`.
pub open spec fn first_value(p: Seq<(String, String)>, key: Seq<char>) -> Option<String>
    decreases p.len(),
{
    if p.len() == 0 {
        None
    } else if p[0].0@ == key {
        Some(p[0].1)
    } else {
        first_value(p.drop_first(), key)
    }
}

/// `after` is `before` with field `field` of `fields` appended as label `label`,
/// unless the field is absent or JSON `null`.
pub open spec fn field_copied(before: Seq<(String, String)>, after: Seq<(String, String)>, fields: Seq<(String, String)>,
    field: Seq<char>, label: Seq<char>) -> bool {
    match first_value(fields, field) {
        Some(v) => if v@ != "null"@ {
            after.len() == before.len() + 1 && after.drop_last() == before && after.last().0@ == label
                && after.last().1 == v
        } else {
            after == before
        },
        None => after == before,
    }
}

/// Copies custom field `field`, unless absent or JSON `null`, as label `label`.
fn copy_field(labels: &mut Pairs, fields: &Pairs, field: &str, label: &str)
    ensures
        field_copied(old(labels)@, final(labels)@, fields@, field@, label@),
{
    let mut k: usize = 0;
    proof { assert(fields@.subrange(0, fields@.len() as int) =~= fields@); }
    while k < fields.len()
        invariant
            k <= fields@.len(),
            *labels == *old(labels),
            first_value(fields@, field@) == first_value(fields@.subrange(k as int, fields@.len() as int), field@),
        decreases fields@.len() - k,
    {
        proof {
            let rest = fields@.subrange(k as int, fields@.len() as int);
            assert(rest.drop_first() =~= fields@.subrange(k + 1, fields@.len() as int));
            assert(rest[0] == fields@[k as int]);
        }
        if str_eq(fields[k].0.as_str(), field) {
            if !str_eq(fields[k].1.as_str(), "null") {
                labels.push((label.to_owned(), fields[k].1.clone()));
                proof { assert(labels@.drop_last() =~= old(labels)@); }
            }
            return;
        }
        k += 1;
    }
}

/// The members of the JSON object of a node's interfaces, for the first `k`:
/// simulator interface name to NetBox identifier and name.
pub open spec fn interface_entries(ifaces: Seq<(String, ManifestInterface)>, names: Seq<(u64, String)>, k: nat) -> Seq<char>
    decreases k,
{
    if k == 0 {
        Seq::empty()
    } else {
        interface_entries(ifaces, names, (k - 1) as nat) + (if k > 1 { ","@ } else { Seq::empty() }) + "\""@
            + ifaces[k - 1].0@ + "\":{\"id\":"@ + ascii_chars(decimal(names[k - 1].0 as nat)) + ",\"name\":"@
            + json_string_text(names[k - 1].1@) + "}"@
    }
}

/// The labels of a device's node: selected custom fields, the NetBox identity,
/// its interfaces by simulator name, and the medium.
fn device_labels(config: &NetBoxConfig, d: &Device, ifaces: &Vec<(String, ManifestInterface)>, names: &Vec<(u64, String)>)
    -> (r: Pairs)
    requires
        ifaces@.len() == names@.len(),
    ensures
        exists|l1: Seq<(String, String)>, l2: Seq<(String, String)>, l3: Seq<(String, String)>| {
            &&& field_copied(Seq::empty(), l1, d.custom_fields@, "simulator_kubernetes_node"@, "kubernetes.node"@)
            &&& field_copied(l1, l2, d.custom_fields@, "simulator_gpu_count"@, "mokka.gpu_count"@)
            &&& field_copied(l2, l3, d.custom_fields@, "simulator_gpu_profile"@, "mokka.profile"@)
            &&& r@.len() == l3.len() + 4 && r@.subrange(0, l3.len() as int) == l3
            &&& r@[l3.len() as int].0@ == "netbox.device_id"@ && r@[l3.len() as int].1@ == ascii_chars(decimal(d.id as nat))
            &&& r@[l3.len() + 1int].0@ == "netbox.device_name"@ && r@[l3.len() + 1int].1@ == json_string_text(d.name@)
            &&& r@[l3.len() + 2int].0@ == "netbox.interfaces"@
            &&& r@[l3.len() + 2int].1@ == "{"@ + interface_entries(ifaces@, names@, ifaces@.len() as nat) + "}"@
            &&& r@[l3.len() + 3int].0@ == "simulator.medium"@
            &&& r@[l3.len() + 3int].1@ == (match config.medium { Medium::Ethernet => "\"ethernet\""@, Medium::Infiniband => "\"infiniband\""@ })
        },
{
    let mut labels: Pairs = Vec::new();
    copy_field(&mut labels, &d.custom_fields, "simulator_kubernetes_node", "kubernetes.node");
    let ghost l1 = labels@;
    copy_field(&mut labels, &d.custom_fields, "simulator_gpu_count", "mokka.gpu_count");
    let ghost l2 = labels@;
    copy_field(&mut labels, &d.custom_fields, "simulator_gpu_profile", "mokka.profile");
    let ghost l3 = labels@;
    labels.push(("netbox.device_id".to_owned(), decimal_string(d.id)));
    labels.push(("netbox.device_name".to_owned(), json_string(d.name.as_str())));
    let mut obj = "{".to_owned();
    let mut k: usize = 0;
    while k < ifaces.len()
        invariant
            k <= ifaces@.len(),
            ifaces@.len() == names@.len(),
            obj@ == "{"@ + interface_entries(ifaces@, names@, k as nat),
        decreases ifaces@.len() - k,
    {
        if k > 0 {
            append(&mut obj, ",");
        }
        append(&mut obj, "\"");
        append(&mut obj, ifaces[k].0.as_str());
        append(&mut obj, "\":{\"id\":");
        append(&mut obj, decimal_string(names[k].0).as_str());
        append(&mut obj, ",\"name\":");
        append(&mut obj, json_string(names[k].1.as_str()).as_str());
        append(&mut obj, "}");
        k += 1;
    }
    append(&mut obj, "}");
    proof { assert(obj@ =~= "{"@ + interface_entries(ifaces@, names@, ifaces@.len() as nat) + "}"@); }
    labels.push(("netbox.interfaces".to_owned(), obj));
    let medium = match config.medium {
        Medium::Ethernet => "\"ethernet\"",
        Medium::Infiniband => "\"infiniband\"",
    };
    labels.push(("simulator.medium".to_owned(), medium.to_owned()));
    proof {
        assert(labels@.subrange(0, l3.len() as int) =~= l3);
    }
    labels
}

/// The node of device `d` with the picked interfaces `members`, its interfaces
/// in name order.
fn device_node(config: &NetBoxConfig, snapshot: &Snapshot, picked: &Vec<Picked>, d: usize, role: Role, members: &Vec<usize>)
    -> (r: ManifestNode)
    requires
        d < snapshot.devices@.len(),
        forall|k: int| 0 <= k < members@.len() ==> (#[trigger] members@[k]) < picked@.len(),
        forall|k: int| 0 <= k < picked@.len() ==> (#[trigger] picked@[k]).iface < snapshot.interfaces@.len(),
    ensures
        r.role == role && r.os@ == config.image@ && r.cpu == config.resources.cpu
            && r.memory == config.resources.memory && r.storage == config.resources.storage,
        r.image_metadata@.len() == 0 && r.user_data is None && r.meta_data is None,
        r.interfaces@.len() == members@.len(),
{
    let mut ifaces: Vec<(String, ManifestInterface)> = Vec::new();
    let mut names: Vec<(u64, String)> = Vec::new();
    let mut k: usize = 0;
    while k < members.len()
        invariant
            k <= members@.len(),
            ifaces@.len() == k,
            names@.len() == k,
            forall|x: int| 0 <= x < members@.len() ==> (#[trigger] members@[x]) < picked@.len(),
            forall|x: int| 0 <= x < picked@.len() ==> (#[trigger] picked@[x]).iface < snapshot.interfaces@.len(),
        decreases members@.len() - k,
    {
        let p = &picked[members[k]];
        let x = &snapshot.interfaces[p.iface];
        let mut at: usize = 0;
        while at < ifaces.len() && str_lt(ifaces[at].0.as_str(), p.name.as_str())
            invariant
                at <= ifaces@.len(),
            decreases ifaces@.len() - at,
        {
            at += 1;
        }
        ifaces.insert(at, (p.name.clone(), ManifestInterface::default()));
        names.insert(at, (x.id, x.name.clone()));
        k += 1;
    }
    let labels = device_labels(config, &snapshot.devices[d], &ifaces, &names);
    ManifestNode {
        os: config.image.clone(),
        cpu: config.resources.cpu,
        memory: config.resources.memory,
        storage: config.resources.storage,
        role,
        interfaces: ifaces,
        labels,
        user_data: None,
        meta_data: None,
        image_metadata: Vec::new(),
    }
}

/// Node resources that `Resources::validate` accepts.
pub open spec fn resources_valid(r: Resources) -> bool {
    r.cpu > 0 && r.memory > 0 && r.storage > 0
}

/// The name of the manifest `compile` produces.
pub open spec fn compiled_name() -> Seq<char> {
    "NetBox intended topology"@
}

/// A manifest for the selected network plane of a NetBox snapshot. Cable paths
/// that cannot be modeled fail rather than becoming direct links, and the result
/// has passed the simulator's own import validation.
#[verifier::spinoff_prover]
pub fn compile(config: &NetBoxConfig, snapshot: &Snapshot) -> (r: Result<Manifest>)
    ensures
        !resources_valid(config.resources) ==> r is Err && r->Err_0 is Invalid,
        resources_valid(config.resources) && !(ids_ok(device_ids(snapshot.devices@)) && ids_ok(interface_ids(snapshot.interfaces@))
            && ids_ok(cable_ids(snapshot.cables@))) ==> r is Err && r->Err_0 is Invalid,
        r is Ok ==> {
            &&& resources_valid(config.resources)
            &&& ids_ok(device_ids(snapshot.devices@)) && ids_ok(interface_ids(snapshot.interfaces@))
            &&& ids_ok(cable_ids(snapshot.cables@))
            &&& exists|k: int| 0 <= k < snapshot.interfaces@.len() && is_selected(#[trigger] snapshot.interfaces@[k], config.medium)
            &&& forall|k: int| 0 <= k < snapshot.interfaces@.len() && is_selected(#[trigger] snapshot.interfaces@[k], config.medium)
                ==> interface_fits(*config, *snapshot, snapshot.interfaces@[k])
        },
        r matches Ok(m) ==> {
            &&& m.format@ == "JSON"@ && m.name@ == compiled_name() && m.ztp is None
            &&& !m.content.oob && !m.content.enable_dhcp
            &&& m.content.services@.len() == 0 && m.content.instructions@.len() == 0
            &&& forall|k: int| 0 <= k < m.content.links@.len()
                ==> (#[trigger] m.content.links@[k]).condition.latency_ns == config.latency_ns
            &&& forall|k: int| 0 <= k < m.content.links@.len() ==> #[trigger] cable_compiled(m.content.links@[k], *config, *snapshot)
            &&& forall|k: int| 0 <= k < m.content.nodes@.len() ==> {
                let n = (#[trigger] m.content.nodes@[k]).1;
                &&& n.os@ == config.image@ && n.cpu == config.resources.cpu
                &&& n.memory == config.resources.memory && n.storage == config.resources.storage
                &&& n.image_metadata@.len() == 0 && n.user_data is None && n.meta_data is None
            }
        },
{
    config.resources.validate()?;
    let mut ids: Vec<u64> = Vec::new();
    let mut k: usize = 0;
    while k < snapshot.devices.len()
        invariant
            k <= snapshot.devices@.len(),
            ids@ == device_ids(snapshot.devices@.subrange(0, k as int)),
        decreases snapshot.devices@.len() - k,
    {
        ids.push(snapshot.devices[k].id);
        k += 1;
        assert(ids@ =~= device_ids(snapshot.devices@.subrange(0, k as int)));
    }
    assert(snapshot.devices@.subrange(0, k as int) =~= snapshot.devices@);
    unique(&ids)?;
    let mut ids: Vec<u64> = Vec::new();
    let mut k: usize = 0;
    while k < snapshot.interfaces.len()
        invariant
            k <= snapshot.interfaces@.len(),
            ids@ == interface_ids(snapshot.interfaces@.subrange(0, k as int)),
        decreases snapshot.interfaces@.len() - k,
    {
        ids.push(snapshot.interfaces[k].id);
        k += 1;
        assert(ids@ =~= interface_ids(snapshot.interfaces@.subrange(0, k as int)));
    }
    assert(snapshot.interfaces@.subrange(0, k as int) =~= snapshot.interfaces@);
    unique(&ids)?;
    let mut ids: Vec<u64> = Vec::new();
    let mut k: usize = 0;
    while k < snapshot.cables.len()
        invariant
            k <= snapshot.cables@.len(),
            ids@ == cable_ids(snapshot.cables@.subrange(0, k as int)),
        decreases snapshot.cables@.len() - k,
    {
        ids.push(snapshot.cables[k].id);
        k += 1;
        assert(ids@ =~= cable_ids(snapshot.cables@.subrange(0, k as int)));
    }
    assert(snapshot.cables@.subrange(0, k as int) =~= snapshot.cables@);
    unique(&ids)?;
    let picked = pick_all(config, snapshot)?;
    compile_picked(config, snapshot, &picked)
}

/// Checks every selected interface, in snapshot order.
fn pick_all(config: &NetBoxConfig, snapshot: &Snapshot) -> (r: Result<Vec<Picked>>)
    requires
        ids_ok(device_ids(snapshot.devices@)),
    ensures
        r is Ok <==> (exists|k: int| 0 <= k < snapshot.interfaces@.len() && is_selected(#[trigger] snapshot.interfaces@[k], config.medium))
            && (forall|k: int| 0 <= k < snapshot.interfaces@.len() && is_selected(#[trigger] snapshot.interfaces@[k], config.medium)
                ==> interface_fits(*config, *snapshot, snapshot.interfaces@[k])),
        r is Ok ==> exists|k: int| 0 <= k < snapshot.interfaces@.len() && is_selected(#[trigger] snapshot.interfaces@[k], config.medium),
        r is Ok ==> forall|k: int| 0 <= k < snapshot.interfaces@.len() && is_selected(#[trigger] snapshot.interfaces@[k], config.medium)
            ==> interface_fits(*config, *snapshot, snapshot.interfaces@[k]),
        r matches Ok(p) ==> p@.len() > 0 && forall|k: int| 0 <= k < p@.len() ==> (#[trigger] p@[k]).iface < snapshot.interfaces@.len()
            && p@[k].device < snapshot.devices@.len()
            && snapshot.devices@[p@[k].device as int].id == snapshot.interfaces@[p@[k].iface as int].device.id,
        r matches Ok(p) ==> forall|k: int| 0 <= k < p@.len() ==> is_selected(snapshot.interfaces@[(#[trigger] p@[k]).iface as int], config.medium)
            && p@[k].name@ == interface_name_of(snapshot.interfaces@[p@[k].iface as int].id)
            && rate_of(snapshot.interfaces@[p@[k].iface as int].speed, config.default_bandwidth_bps) == Some(p@[k].rate),
        r matches Ok(p) ==> forall|i: int, j: int| 0 <= i < j < p@.len() ==> p@[i].iface < p@[j].iface,
        r matches Ok(p) ==> forall|k: int| 0 <= k < snapshot.interfaces@.len() && is_selected(#[trigger] snapshot.interfaces@[k], config.medium)
            ==> exists|j: int| 0 <= j < p@.len() && (#[trigger] p@[j]).iface == k,
{
    let mut picked: Vec<Picked> = Vec::new();
    let mut i: usize = 0;
    while i < snapshot.interfaces.len()
        invariant
            i <= snapshot.interfaces@.len(),
            ids_ok(device_ids(snapshot.devices@)),
            forall|k: int| 0 <= k < i && is_selected(#[trigger] snapshot.interfaces@[k], config.medium)
                ==> interface_fits(*config, *snapshot, snapshot.interfaces@[k]),
            picked@.len() > 0 ==> exists|k: int| 0 <= k < i && is_selected(#[trigger] snapshot.interfaces@[k], config.medium),
            picked@.len() == 0 ==> forall|k: int| 0 <= k < i ==> !is_selected(#[trigger] snapshot.interfaces@[k], config.medium),
            forall|k: int| 0 <= k < picked@.len() ==> (#[trigger] picked@[k]).iface < snapshot.interfaces@.len()
                && picked@[k].device < snapshot.devices@.len()
                && snapshot.devices@[picked@[k].device as int].id == snapshot.interfaces@[picked@[k].iface as int].device.id,
            forall|k: int| 0 <= k < picked@.len() ==> (#[trigger] picked@[k]).iface < i
                && is_selected(snapshot.interfaces@[picked@[k].iface as int], config.medium)
                && picked@[k].name@ == interface_name_of(snapshot.interfaces@[picked@[k].iface as int].id)
                && rate_of(snapshot.interfaces@[picked@[k].iface as int].speed, config.default_bandwidth_bps) == Some(picked@[k].rate),
            forall|a: int, b: int| 0 <= a < b < picked@.len() ==> picked@[a].iface < picked@[b].iface,
            forall|k: int| 0 <= k < i && is_selected(#[trigger] snapshot.interfaces@[k], config.medium)
                ==> exists|j: int| 0 <= j < picked@.len() && (#[trigger] picked@[j]).iface == k,
        decreases snapshot.interfaces@.len() - i,
    {
        if selected(&snapshot.interfaces[i], config.medium) {
            let p = pick(config, snapshot, i)?;
            let ghost before = picked@;
            picked.push(p);
            proof {
                assert(picked@[before.len() as int].iface == i);
                assert forall|k: int| 0 <= k < i + 1 && is_selected(#[trigger] snapshot.interfaces@[k], config.medium)
                    implies exists|j: int| 0 <= j < picked@.len() && (#[trigger] picked@[j]).iface == k by {
                    if k < i {
                        let j = choose|j: int| 0 <= j < before.len() && (#[trigger] before[j]).iface == k;
                        assert(picked@[j] == before[j]);
                    } else {
                        assert(picked@[before.len() as int].iface == k);
                    }
                }
            }
        }
        i += 1;
    }
    if picked.len() == 0 {
        return Err(invalid("NetBox scope contains no selected data interfaces"));
    }
    Ok(picked)
}

/// The manifest of checked interfaces: nodes per device in name order, a link
/// per cable in identifier order, validated by a trial import.
fn compile_picked(config: &NetBoxConfig, snapshot: &Snapshot, picked: &Vec<Picked>) -> (r: Result<Manifest>)
    requires
        forall|k: int| 0 <= k < picked@.len() ==> (#[trigger] picked@[k]).iface < snapshot.interfaces@.len()
            && picked@[k].device < snapshot.devices@.len(),
        forall|k: int| 0 <= k < picked@.len() ==> picked_described(#[trigger] picked@[k], *config, *snapshot),
    ensures
        r matches Ok(m) ==> forall|k: int| 0 <= k < m.content.links@.len() ==> #[trigger] cable_compiled(m.content.links@[k], *config, *snapshot),
        r matches Ok(m) ==> {
            &&& m.format@ == "JSON"@ && m.name@ == compiled_name() && m.ztp is None
            &&& !m.content.oob && !m.content.enable_dhcp
            &&& m.content.services@.len() == 0 && m.content.instructions@.len() == 0
            &&& forall|k: int| 0 <= k < m.content.links@.len()
                ==> (#[trigger] m.content.links@[k]).condition.latency_ns == config.latency_ns
            &&& forall|k: int| 0 <= k < m.content.nodes@.len() ==> {
                let n = (#[trigger] m.content.nodes@[k]).1;
                &&& n.os@ == config.image@ && n.cpu == config.resources.cpu
                &&& n.memory == config.resources.memory && n.storage == config.resources.storage
                &&& n.image_metadata@.len() == 0 && n.user_data is None && n.meta_data is None
            }
        },
{
    let mut needed: Vec<u64> = Vec::new();
    let mut k: usize = 0;
    while k < picked.len()
        invariant
            k <= picked@.len(),
            forall|x: int| 0 <= x < picked@.len() ==> (#[trigger] picked@[x]).iface < snapshot.interfaces@.len(),
            forall|i: int, j: int| 0 <= i < j < needed@.len() ==> needed@[i] < needed@[j],
        decreases picked@.len() - k,
    {
        if let Some(c) = &snapshot.interfaces[picked[k].iface].cable {
            insert_sorted(&mut needed, c.id);
        }
        k += 1;
    }
    let mut used: Vec<u64> = Vec::new();
    let mut links: Vec<ManifestLink> = Vec::new();
    let mut k: usize = 0;
    while k < needed.len()
        invariant
            k <= needed@.len(),
            forall|x: int| 0 <= x < picked@.len() ==> (#[trigger] picked@[x]).iface < snapshot.interfaces@.len()
                && picked@[x].device < snapshot.devices@.len(),
            forall|x: int| 0 <= x < links@.len() ==> (#[trigger] links@[x]).condition.latency_ns == config.latency_ns,
            forall|x: int| 0 <= x < picked@.len() ==> picked_described(#[trigger] picked@[x], *config, *snapshot),
            forall|x: int| 0 <= x < links@.len() ==> #[trigger] cable_compiled(links@[x], *config, *snapshot),
        decreases needed@.len() - k,
    {
        let ghost used0 = used@;
        let l = cable_link(config, snapshot, picked, &mut used, needed[k])?;
        proof {
            let id = needed@[k as int];
            assert(link_ok(*config, *snapshot, picked@, used0, id));
            let c = choose|c: int| {
                let cable = #[trigger] snapshot.cables@[c];
                &&& first_cable(snapshot.cables@, id, c)
                &&& single_interfaces(cable)
                &&& end_ok(picked@, *snapshot, used0, cable.a_terminations@[0].object_id, id)
                &&& end_ok(picked@, *snapshot, used0.push(cable.a_terminations@[0].object_id), cable.b_terminations@[0].object_id, id)
                &&& cable_up_of(cable.status.value@, config.planned_links_up) is Some
            };
            let oa = snapshot.cables@[c].a_terminations@[0].object_id;
            let ob = snapshot.cables@[c].b_terminations@[0].object_id;
            let ka = choose|ka: int| first_picked(picked@, *snapshot, oa, ka)
                && on_cable(snapshot.interfaces@[picked@[ka].iface as int].cable, id) && !used0.contains(oa);
            let kb = choose|kb: int| first_picked(picked@, *snapshot, ob, kb)
                && on_cable(snapshot.interfaces@[picked@[kb].iface as int].cable, id) && !used0.push(oa).contains(ob);
            assert(link_is(l, *config, *snapshot, picked@, c, ka, kb));
            assert(picked_described(picked@[ka], *config, *snapshot));
            assert(picked_described(picked@[kb], *config, *snapshot));
            assert(link_compiled(l, *config, *snapshot, picked@[ka].iface as int, picked@[kb].iface as int));
        }
        links.push(l);
        k += 1;
    }
    let mut k: usize = 0;
    while k < picked.len()
        invariant
            k <= picked@.len(),
            forall|x: int| 0 <= x < picked@.len() ==> (#[trigger] picked@[x]).iface < snapshot.interfaces@.len(),
        decreases picked@.len() - k,
    {
        let x = &snapshot.interfaces[picked[k].iface];
        if x.cable.is_some() && !contains_id(&used, x.id) {
            return Err(invalid("a cabled interface is absent from its cable terminations; retry the snapshot"));
        }
        k += 1;
    }
    // Devices in order of first appearance, with their picked interfaces.
    let mut devices: Vec<usize> = Vec::new();
    let mut members: Vec<Vec<usize>> = Vec::new();
    let mut roles: Vec<Role> = Vec::new();
    let mut k: usize = 0;
    while k < picked.len()
        invariant
            k <= picked@.len(),
            devices@.len() == members@.len() && devices@.len() == roles@.len(),
            forall|x: int| 0 <= x < devices@.len() ==> (#[trigger] devices@[x]) < snapshot.devices@.len(),
            forall|x: int, y: int| 0 <= x < members@.len() && 0 <= y < members@[x]@.len() ==> #[trigger] members@[x]@[y] < picked@.len(),
            forall|x: int| 0 <= x < picked@.len() ==> (#[trigger] picked@[x]).iface < snapshot.interfaces@.len()
                && picked@[x].device < snapshot.devices@.len(),
        decreases picked@.len() - k,
    {
        let d = picked[k].device;
        let mut g: usize = 0;
        while g < devices.len() && devices[g] != d
            invariant
                g <= devices@.len(),
            decreases devices@.len() - g,
        {
            g += 1;
        }
        if g == devices.len() {
            devices.push(d);
            let mut m: Vec<usize> = Vec::new();
            m.push(k);
            members.push(m);
            roles.push(picked[k].role);
        } else {
            let mut m = members.remove(g);
            m.push(k);
            members.insert(g, m);
        }
        k += 1;
    }
    let mut nodes: Vec<(String, ManifestNode)> = Vec::new();
    let mut g: usize = 0;
    while g < devices.len()
        invariant
            g <= devices@.len(),
            devices@.len() == members@.len() && devices@.len() == roles@.len(),
            forall|x: int| 0 <= x < devices@.len() ==> (#[trigger] devices@[x]) < snapshot.devices@.len(),
            forall|x: int, y: int| 0 <= x < members@.len() && 0 <= y < members@[x]@.len() ==> #[trigger] members@[x]@[y] < picked@.len(),
            forall|x: int| 0 <= x < picked@.len() ==> (#[trigger] picked@[x]).iface < snapshot.interfaces@.len(),
            forall|k: int| 0 <= k < nodes@.len() ==> {
                let n = (#[trigger] nodes@[k]).1;
                &&& n.os@ == config.image@ && n.cpu == config.resources.cpu
                &&& n.memory == config.resources.memory && n.storage == config.resources.storage
                &&& n.image_metadata@.len() == 0 && n.user_data is None && n.meta_data is None
            },
        decreases devices@.len() - g,
    {
        let name = node_name(snapshot.devices[devices[g]].id);
        let node = device_node(config, snapshot, picked, devices[g], roles[g], &members[g]);
        let mut at: usize = 0;
        while at < nodes.len() && str_lt(nodes[at].0.as_str(), name.as_str())
            invariant
                at <= nodes@.len(),
            decreases nodes@.len() - at,
        {
            at += 1;
        }
        let ghost before = nodes@;
        nodes.insert(at, (name, node));
        proof {
            assert forall|k: int| 0 <= k < nodes@.len() implies {
                let n = (#[trigger] nodes@[k]).1;
                &&& n.os@ == config.image@ && n.cpu == config.resources.cpu
                &&& n.memory == config.resources.memory && n.storage == config.resources.storage
                &&& n.image_metadata@.len() == 0 && n.user_data is None && n.meta_data is None
            } by {
                if k < at {
                    assert(nodes@[k] == before[k]);
                } else if k > at {
                    assert(nodes@[k] == before[k - 1]);
                }
            }
        }
        g += 1;
    }
    let manifest = Manifest {
        format: "JSON".to_owned(),
        name: "NetBox intended topology".to_owned(),
        ztp: None,
        content: Topology {
            nodes,
            links,
            oob: false,
            enable_dhcp: false,
            services: Vec::new(),
            instructions: Vec::new(),
        },
    };
    Simulator::build(&manifest)?;
    Ok(manifest)
}

} // verus!
