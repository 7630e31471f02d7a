//! Guest networking of the native fabric, a lab overlay: one /30 per cable,
//! forwarding only on switches, and static routes over up cables.
use vstd::prelude::*;
use vstd::arithmetic::power2::{pow2, lemma2_to64, lemma_pow2_adds, lemma_pow2_strictly_increases};
use crate::manifest::Manifest;
use crate::model::{Error, Result, Role, invalid};
use crate::keyed::str_eq;
use crate::text::append;
use crate::deepops::{address_string, address_text};
use petgraph::graph::DiGraph;
use crate::topology::{graph_nodes, graph_edges, out_edges, lemma_out_edge, graph_new, graph_add_node,
    graph_add_edge, graph_astar, graph_find_edge, graph_walk, has_edge, lemma_out_edge_listed};

verus! {

/// A systemd-networkd file for one port of a guest.
pub struct NetworkFile {
    pub name: String,
    pub content: String,
}

/// What each guest of the native fabric is given: its network files by node name,
/// whether it forwards transit traffic, and the address of every cable end.
pub struct GuestConfig {
    pub ncp_network_files: Vec<(String, Vec<NetworkFile>)>,
    pub ncp_forwarding: Vec<(String, bool)>,
    pub ncp_addresses: Vec<(String, String)>,
}

/// `c` is the first place of `ch` in `s`.
pub open spec fn first_at(s: Seq<char>, ch: char, c: int) -> bool {
    &&& 0 <= c < s.len() && s[c] == ch
    &&& forall|j: int| 0 <= j < c ==> s[j] != ch
}

pub open spec fn has_char(s: Seq<char>, ch: char) -> bool {
    exists|c: int| 0 <= c < s.len() && s[c] == ch
}

pub open spec fn first_of(s: Seq<char>, ch: char) -> int {
    choose|c: int| first_at(s, ch, c)
}

pub proof fn lemma_first_of(s: Seq<char>, ch: char, c: int)
    requires
        first_at(s, ch, c),
    ensures
        first_of(s, ch) == c,
{
    let d = first_of(s, ch);
    assert(first_at(s, ch, d));
    if d < c {
        assert(s[d] != ch);
    } else if c < d {
        assert(s[c] != ch);
    }
}

/// The first place of `ch` in `s`, if any.
fn find_char(s: &str, ch: char) -> (r: Option<usize>)
    ensures
        r matches Some(c) ==> first_at(s@, ch, c as int) && first_of(s@, ch) == c,
        r is None <==> !has_char(s@, ch),
{
    let n = s.unicode_len();
    let mut c: usize = 0;
    while c < n
        invariant
            n == s@.len(),
            c <= n,
            forall|j: int| 0 <= j < c ==> s@[j] != ch,
        decreases n - c,
    {
        if s.get_char(c) == ch {
            proof { lemma_first_of(s@, ch, c as int); }
            return Some(c);
        }
        c += 1;
    }
    None
}

pub open spec fn is_digit(c: char) -> bool {
    '0' <= c && c <= '9'
}

pub open spec fn all_digits(s: Seq<char>) -> bool {
    forall|i: int| 0 <= i < s.len() ==> is_digit(#[trigger] s[i])
}

/// The value of a run of decimal digits.
pub open spec fn number(s: Seq<char>) -> nat
    decreases s.len(),
{
    if s.len() == 0 {
        0
    } else {
        (number(s.drop_last()) * 10 + (s.last() as int - '0' as int)) as nat
    }
}

proof fn lemma_number_grows(s: Seq<char>, k: int)
    requires
        all_digits(s),
        0 <= k <= s.len(),
    ensures
        number(s.subrange(0, k)) <= number(s),
    decreases s.len(),
{
    if k < s.len() {
        assert(all_digits(s.drop_last()));
        lemma_number_grows(s.drop_last(), k);
        assert(s.drop_last().subrange(0, k) =~= s.subrange(0, k));
        assert(is_digit(s[s.len() - 1]));
    } else {
        assert(s.subrange(0, k) =~= s);
    }
}

/// What std's `u32` parser gives: an optional `+`, then digits, at most `u32::MAX`.
pub open spec fn unsigned_text(s: Seq<char>) -> Option<nat> {
    let d = if s.len() > 0 && s[0] == '+' { s.subrange(1, s.len() as int) } else { s };
    if d.len() > 0 && all_digits(d) && number(d) <= u32::MAX { Some(number(d)) } else { None }
}

fn parse_unsigned(s: &str) -> (r: Option<u32>)
    ensures
        r is Some <==> unsigned_text(s@) is Some,
        r matches Some(v) ==> unsigned_text(s@) == Some(v as nat),
{
    let n = s.unicode_len();
    let start: usize = if n > 0 && s.get_char(0) == '+' { 1 } else { 0 };
    let ghost d = s@.subrange(start as int, n as int);
    proof {
        if start == 0 {
            assert(d =~= s@);
        }
        assert(d == (if s@.len() > 0 && s@[0] == '+' { s@.subrange(1, s@.len() as int) } else { s@ }));
    }
    if start == n {
        return None;
    }
    let mut v: u64 = 0;
    let mut i: usize = start;
    while i < n
        invariant
            n == s@.len(),
            start <= i <= n,
            d == s@.subrange(start as int, n as int),
            d == (if s@.len() > 0 && s@[0] == '+' { s@.subrange(1, s@.len() as int) } else { s@ }),
            all_digits(d.subrange(0, i - start)),
            v == number(d.subrange(0, i - start)),
            v <= u32::MAX,
        decreases n - i,
    {
        let c = s.get_char(i);
        if !('0' <= c && c <= '9') {
            assert(d[i - start] == c);
            assert(!is_digit(d[i - start]));
            assert(!all_digits(d));
            return None;
        }
        let ghost before = d.subrange(0, i - start);
        v = v * 10 + (c as u32 - 48) as u64;
        i += 1;
        proof {
            let now = d.subrange(0, i - start);
            assert(now.drop_last() =~= before);
            assert(now.last() == c);
            assert(all_digits(now));
        }
        if v > 0xffff_ffff {
            proof {
                if all_digits(d) {
                    lemma_number_grows(d, (i - start) as int);
                    assert(number(d) > u32::MAX);
                }
            }
            return None;
        }
    }
    proof { assert(d.subrange(0, n - start) =~= d); }
    Some(v as u32)
}

/// One decimal octet of a dotted address as std reads it: one to three digits,
/// no leading zero, at most 255.
pub open spec fn octet(s: Seq<char>) -> Option<nat> {
    if 1 <= s.len() <= 3 && all_digits(s) && (s.len() == 1 || s[0] != '0') && number(s) <= 255 {
        Some(number(s))
    } else {
        None
    }
}

fn parse_octet(s: &str, from: usize, to: usize) -> (r: Option<u64>)
    requires
        from <= to <= s@.len(),
    ensures
        r is Some <==> octet(s@.subrange(from as int, to as int)) is Some,
        r matches Some(v) ==> octet(s@.subrange(from as int, to as int)) == Some(v as nat),
{
    let ghost t = s@.subrange(from as int, to as int);
    if to - from < 1 || to - from > 3 {
        return None;
    }
    if to - from > 1 && s.get_char(from) == '0' {
        return None;
    }
    let mut v: u64 = 0;
    let mut i: usize = from;
    while i < to
        invariant
            from <= i <= to <= s@.len(),
            to - from <= 3,
            t == s@.subrange(from as int, to as int),
            all_digits(t.subrange(0, i - from)),
            v == number(t.subrange(0, i - from)),
            v < (if i - from == 0 { 1 } else if i - from == 1 { 10 } else if i - from == 2 { 100 } else { 1000int }),
        decreases to - i,
    {
        let c = s.get_char(i);
        if !('0' <= c && c <= '9') {
            assert(t[i - from] == c);
            return None;
        }
        let ghost before = t.subrange(0, i - from);
        v = v * 10 + (c as u32 - 48) as u64;
        i += 1;
        proof {
            let now = t.subrange(0, i - from);
            assert(now.drop_last() =~= before);
            assert(now.last() == c);
            assert(all_digits(now));
        }
    }
    proof { assert(t.subrange(0, to - from) =~= t); }
    if v > 255 {
        return None;
    }
    Some(v)
}


/// The places of the dots in `s`, in order.
pub open spec fn dots(s: Seq<char>) -> Seq<int>
    decreases s.len(),
{
    if s.len() == 0 {
        Seq::empty()
    } else {
        let d = dots(s.drop_last());
        if s.last() == '.' { d.push(s.len() - 1) } else { d }
    }
}

/// What std's IPv4 parser gives for dotted-decimal text, as a 32-bit number.
pub open spec fn ipv4_value(s: Seq<char>) -> Option<nat> {
    let d = dots(s);
    if d.len() == 3 {
        let a = octet(s.subrange(0, d[0]));
        let b = octet(s.subrange(d[0] + 1, d[1]));
        let c = octet(s.subrange(d[1] + 1, d[2]));
        let e = octet(s.subrange(d[2] + 1, s.len() as int));
        if a is Some && b is Some && c is Some && e is Some {
            Some(a->0 * 16777216 + b->0 * 65536 + c->0 * 256 + e->0)
        } else {
            None
        }
    } else {
        None
    }
}

fn parse_ipv4(s: &str) -> (r: Option<u64>)
    ensures
        r is Some <==> ipv4_value(s@) is Some,
        r matches Some(v) ==> ipv4_value(s@) == Some(v as nat),
{
    let n = s.unicode_len();
    let mut dv: Vec<usize> = Vec::new();
    let mut i: usize = 0;
    while i < n
        invariant
            n == s@.len(),
            i <= n,
            dv@.len() == dots(s@.subrange(0, i as int)).len(),
            forall|k: int| 0 <= k < dv@.len() ==> dv@[k] == dots(s@.subrange(0, i as int))[k],
            forall|k: int| 0 <= k < dv@.len() ==> dv@[k] < i,
            forall|a: int, b: int| 0 <= a < b < dv@.len() ==> dv@[a] < dv@[b],
        decreases n - i,
    {
        let ghost before = s@.subrange(0, i as int);
        if s.get_char(i) == '.' {
            dv.push(i);
        }
        i += 1;
        proof {
            assert(s@.subrange(0, i as int).drop_last() =~= before);
        }
    }
    proof { assert(s@.subrange(0, n as int) =~= s@); }
    if dv.len() != 3 {
        return None;
    }
    let a = match parse_octet(s, 0, dv[0]) { Some(v) => v, None => { return None; } };
    let b = match parse_octet(s, dv[0] + 1, dv[1]) { Some(v) => v, None => { return None; } };
    let c = match parse_octet(s, dv[1] + 1, dv[2]) { Some(v) => v, None => { return None; } };
    let e = match parse_octet(s, dv[2] + 1, n) { Some(v) => v, None => { return None; } };
    Some(a * 16777216 + b * 65536 + c * 256 + e)
}

/// The network address and size of a lab pool in CIDR form, `/8` through `/30`,
/// when the address is the first of its block.
pub open spec fn pool_value(pool: Seq<char>) -> Option<(nat, nat)> {
    if has_char(pool, '/') {
        let c = first_of(pool, '/');
        let a = ipv4_value(pool.subrange(0, c));
        let p = unsigned_text(pool.subrange(c + 1, pool.len() as int));
        if a is Some && p is Some && 8 <= p->0 <= 30 && a->0 % pow2((32 - p->0) as nat) == 0 {
            Some((a->0, pow2((32 - p->0) as nat)))
        } else {
            None
        }
    } else {
        None
    }
}

fn parse_pool(pool: &str) -> (r: Option<(u64, u64)>)
    ensures
        r is Some <==> pool_value(pool@) is Some,
        r matches Some(v) ==> pool_value(pool@) == Some((v.0 as nat, v.1 as nat)),
        r matches Some(v) ==> 4 <= v.1 <= 16777216 && v.0 < 0x1_0000_0000,
{
    let c = match find_char(pool, '/') { Some(c) => c, None => { return None; } };
    let n = pool.unicode_len();
    let a = match parse_ipv4(pool.substring_char(0, c)) { Some(v) => v, None => { return None; } };
    let p = match parse_unsigned(pool.substring_char(c + 1, n)) { Some(v) => v, None => { return None; } };
    if p < 8 || p > 30 {
        return None;
    }
    let e: u32 = 32 - p;
    let mut size: u64 = 1;
    let mut k: u32 = 0;
    proof { lemma2_to64(); }
    while k < e
        invariant
            k <= e,
            2 <= e <= 24,
            size == pow2(k as nat),
        decreases e - k,
    {
        proof {
            lemma_pow2_adds(k as nat, 1);
            lemma2_to64();
            if k + 1 < 24 {
                lemma_pow2_strictly_increases((k + 1) as nat, 24);
            }
        }
        size = size * 2;
        k += 1;
    }
    proof {
        lemma2_to64();
        if e < 24 {
            lemma_pow2_strictly_increases(e as nat, 24);
        }
        if e > 2 {
            lemma_pow2_strictly_increases(2, e as nat);
        }
        assert(a < 0x1_0000_0000);
    }
    if a % size != 0 {
        return None;
    }
    Some((a, size))
}


/// `i` is the first node of `m` named `name`.
pub open spec fn named(m: Manifest, name: Seq<char>, i: int) -> bool {
    &&& 0 <= i < m.content.nodes@.len() && m.content.nodes@[i].0@ == name
    &&& forall|j: int| 0 <= j < i ==> m.content.nodes@[j].0@ != name
}

pub open spec fn has_node(m: Manifest, name: Seq<char>) -> bool {
    exists|i: int| 0 <= i < m.content.nodes@.len() && m.content.nodes@[i].0@ == name
}

pub open spec fn node_of(m: Manifest, name: Seq<char>) -> int {
    choose|i: int| named(m, name, i)
}

pub proof fn lemma_named(m: Manifest, name: Seq<char>, i: int)
    requires
        named(m, name, i),
    ensures
        node_of(m, name) == i,
{
    let j = node_of(m, name);
    assert(named(m, name, j));
    if j < i {
        assert(m.content.nodes@[j].0@ != name);
    } else if i < j {
        assert(m.content.nodes@[i].0@ != name);
    }
}

fn node_index(m: &Manifest, name: &str) -> (r: Option<usize>)
    ensures
        r matches Some(i) ==> named(*m, name@, i as int),
        r is None <==> !has_node(*m, name@),
{
    let mut i: usize = 0;
    while i < m.content.nodes.len()
        invariant
            i <= m.content.nodes@.len(),
            forall|j: int| 0 <= j < i ==> m.content.nodes@[j].0@ != name@,
        decreases m.content.nodes@.len() - i,
    {
        if str_eq(m.content.nodes[i].0.as_str(), name) {
            return Some(i);
        }
        i += 1;
    }
    None
}

/// The node and the port of a `node:port` cable end, split at the first colon.
pub open spec fn node_part(e: Seq<char>) -> Seq<char> {
    e.subrange(0, first_of(e, ':'))
}

pub open spec fn port_part(e: Seq<char>) -> Seq<char> {
    e.subrange(first_of(e, ':') + 1, e.len() as int)
}

pub open spec fn has_port(m: Manifest, i: int, port: Seq<char>) -> bool {
    exists|j: int| 0 <= j < m.content.nodes@[i].1.interfaces@.len() && m.content.nodes@[i].1.interfaces@[j].0@ == port
}

/// A cable end names an interface of a node of the manifest.
pub open spec fn end_ok(m: Manifest, e: Seq<char>) -> bool {
    &&& has_char(e, ':')
    &&& has_node(m, node_part(e))
    &&& has_port(m, node_of(m, node_part(e)), port_part(e))
}

/// End `s` of cable `k`.
pub open spec fn end(m: Manifest, k: int, s: int) -> Seq<char> {
    m.content.links@[k].endpoints[s]@
}

/// No port belongs to two cables, nor twice to one.
pub open spec fn ends_distinct(m: Manifest) -> bool {
    forall|k1: int, s1: int, k2: int, s2: int|
        0 <= k1 < m.content.links@.len() && 0 <= k2 < m.content.links@.len() && 0 <= s1 < 2 && 0 <= s2 < 2
            && (k1 != k2 || s1 != s2) ==> #[trigger] end(m, k1, s1) != #[trigger] end(m, k2, s2)
}

fn resolve(m: &Manifest, e: &str) -> (r: Option<usize>)
    ensures
        r is Some <==> end_ok(*m, e@),
        r matches Some(i) ==> named(*m, node_part(e@), i as int),
{
    let c = match find_char(e, ':') { Some(c) => c, None => { return None; } };
    let n = e.unicode_len();
    let node = e.substring_char(0, c);
    let port = e.substring_char(c + 1, n);
    assert(node@ == node_part(e@));
    assert(port@ == port_part(e@));
    let i = match node_index(m, node) { Some(i) => i, None => { return None; } };
    proof { lemma_named(*m, node@, i as int); }
    let ifs = &m.content.nodes[i].1.interfaces;
    let mut j: usize = 0;
    while j < ifs.len()
        invariant
            j <= ifs@.len(),
            i < m.content.nodes@.len(),
            *ifs == m.content.nodes@[i as int].1.interfaces,
            has_char(e@, ':'),
            named(*m, node_part(e@), i as int),
            node_of(*m, node_part(e@)) == i,
            port@ == port_part(e@),
            forall|x: int| 0 <= x < j ==> ifs@[x].0@ != port@,
        decreases ifs@.len() - j,
    {
        if str_eq(ifs[j].0.as_str(), port) {
            return Some(i);
        }
        j += 1;
    }
    None
}

/// Dotted decimal text of the low 32 bits of `v`.
pub open spec fn addr_text(v: int) -> Seq<char> {
    address_text([((v / 16777216) % 256) as u8, ((v / 65536) % 256) as u8, ((v / 256) % 256) as u8, (v % 256) as u8])
}

pub(crate) fn addr_string(v: u64) -> (r: String)
    ensures
        r@ == addr_text(v as int),
{
    let a: [u8; 4] = [((v / 16777216) % 256) as u8, ((v / 65536) % 256) as u8, ((v / 256) % 256) as u8, (v % 256) as u8];
    let r = address_string(a);
    assert(a == [((v / 16777216) % 256) as u8, ((v / 65536) % 256) as u8, ((v / 256) % 256) as u8, (v % 256) as u8]);
    r
}

/// The block of a cable, as `a.b.c.d/30`.
pub open spec fn prefix_text(v: int) -> Seq<char> {
    addr_text(v) + "/30"@
}

/// The first address of a valid pool.
pub open spec fn pool_base(pool: Seq<char>) -> nat {
    (pool_value(pool)->0).0
}

/// The number of addresses of a valid pool.
pub open spec fn pool_size(pool: Seq<char>) -> nat {
    (pool_value(pool)->0).1
}

/// The pool is a canonical lab block that holds a /30 for every cable, there is at
/// least one cable, and every cable end is a distinct port of a manifest node.
pub open spec fn network_ok(m: Manifest, pool: Seq<char>) -> bool {
    &&& pool_value(pool) is Some
    &&& 4 * m.content.links@.len() <= pool_size(pool)
    &&& m.content.links@.len() > 0
    &&& forall|k: int, s: int| 0 <= k < m.content.links@.len() && 0 <= s < 2 ==> end_ok(m, #[trigger] end(m, k, s))
    &&& ends_distinct(m)
}

/// Cable `k` has the block at `base + 4k`, in cable order: its end `s` has the address
/// `base + 4k + s + 1`.
pub open spec fn addresses_planned(m: Manifest, base: nat, a: Seq<(String, String)>) -> bool {
    &&& a.len() == 2 * m.content.links@.len()
    &&& forall|q: int| 0 <= q < a.len() ==> (#[trigger] a[q]).0@ == end(m, q / 2, q % 2)
        && a[q].1@ == addr_text(base + 4 * (q / 2) + q % 2 + 1)
}

/// Exactly the switches forward transit traffic.
pub open spec fn forwarding_planned(m: Manifest, f: Seq<(String, bool)>) -> bool {
    &&& f.len() == m.content.nodes@.len()
    &&& forall|i: int| 0 <= i < f.len() ==> (#[trigger] f[i]).0@ == m.content.nodes@[i].0@
        && (f[i].1 <==> m.content.nodes@[i].1.role == Role::Switch)
}

/// End `x` of the cable ends in order, two per cable, names an interface of a node.
pub open spec fn flat_end_ok(m: Manifest, x: int) -> bool {
    end_ok(m, end(m, x / 2, x % 2))
}

/// Checks the cables and gives each end its address, in cable order, with the node
/// it sits on.
fn allocate(m: &Manifest, base: u64, size: u64) -> (r: Result<(Vec<(String, String)>, Vec<usize>)>)
    requires
        4 <= size <= 16777216,
        base < 0x1_0000_0000,
    ensures
        r is Ok <==> 4 * m.content.links@.len() <= size
            && (forall|k: int, s: int| 0 <= k < m.content.links@.len() && 0 <= s < 2 ==> end_ok(*m, #[trigger] end(*m, k, s)))
            && ends_distinct(*m),
        r is Err ==> r->Err_0 is Invalid,
        r matches Ok(p) ==> addresses_planned(*m, base as nat, p.0@),
        r matches Ok(p) ==> p.1@.len() == 2 * m.content.links@.len()
            && forall|q: int| 0 <= q < p.1@.len() ==> named(*m, node_part(end(*m, q / 2, q % 2)), #[trigger] p.1@[q] as int),
{
    let links = &m.content.links;
    let total = links.len();
    if total as u64 > size / 4 || (total as u64) * 4 > size {
        return Err(invalid("IPv4 pool cannot hold every cable /30"));
    }
    let mut seen: Vec<String> = Vec::new();
    let mut addrs: Vec<(String, String)> = Vec::new();
    let mut ends: Vec<usize> = Vec::new();
    let mut q: usize = 0;
    while q < 2 * total
        invariant
            *links == m.content.links,
            total == links@.len(),
            4 * total <= size <= 16777216,
            base < 0x1_0000_0000,
            q <= 2 * total,
            seen@.len() == q && addrs@.len() == q && ends@.len() == q,
            forall|x: int| 0 <= x < q ==> (#[trigger] seen@[x])@ == end(*m, x / 2, x % 2),
            forall|x: int, y: int| 0 <= x < q && 0 <= y < q && x != y ==> (#[trigger] seen@[x])@ != (#[trigger] seen@[y])@,
            forall|x: int| 0 <= x < q ==> (#[trigger] addrs@[x]).0@ == end(*m, x / 2, x % 2)
                && addrs@[x].1@ == addr_text(base + 4 * (x / 2) + x % 2 + 1),
            forall|x: int| 0 <= x < q ==> #[trigger] flat_end_ok(*m, x),
            forall|x: int| #![trigger ends@[x]] 0 <= x < q ==> named(*m, node_part(end(*m, x / 2, x % 2)), ends@[x] as int),
        decreases 2 * total - q,
    {
        let k = q / 2;
        let s = q % 2;
        let e = &links[k].endpoints[s];
        assert(e@ == end(*m, k as int, s as int));
        let i = match resolve(m, e.as_str()) {
            Some(i) => i,
            None => {
                return Err(invalid("a cable end names no interface of the manifest"));
            },
        };
        if crate::keyed::contains_str(&seen, e.as_str()) {
            proof {
                let x = choose|x: int| 0 <= x < seen@.len() && #[trigger] seen@[x]@ == e@;
                assert(end(*m, x / 2, x % 2) == end(*m, k as int, s as int));
            }
            return Err(invalid("port belongs to two cables"));
        }
        let a = addr_string(base + 4 * (k as u64) + (s as u64) + 1);
        let ghost old_seen = seen@;
        let ghost old_addrs = addrs@;
        let ghost old_ends = ends@;
        let ghost qq = q as int;
        assert(qq / 2 == k as int && qq % 2 == s as int);
        seen.push(e.clone());
        addrs.push((e.clone(), a));
        ends.push(i);
        q += 1;
        proof {
            assert forall|x: int| 0 <= x < q implies (#[trigger] seen@[x])@ == end(*m, x / 2, x % 2) by {
                if x < q - 1 {
                    assert(seen@[x] == old_seen[x]);
                }
            }
            assert forall|x: int, y: int| 0 <= x < q && 0 <= y < q && x != y
                implies (#[trigger] seen@[x])@ != (#[trigger] seen@[y])@ by {
                if x < q - 1 && y < q - 1 {
                    assert(seen@[x] == old_seen[x] && seen@[y] == old_seen[y]);
                } else if x < q - 1 {
                    assert(seen@[x] == old_seen[x]);
                } else if y < q - 1 {
                    assert(seen@[y] == old_seen[y]);
                }
            }
            assert forall|x: int| 0 <= x < q implies (#[trigger] addrs@[x]).0@ == end(*m, x / 2, x % 2)
                && addrs@[x].1@ == addr_text(base + 4 * (x / 2) + x % 2 + 1) by {
                if x < q - 1 {
                    assert(addrs@[x] == old_addrs[x]);
                }
            }
            assert forall|x: int| #![trigger ends@[x]] 0 <= x < q implies
                named(*m, node_part(end(*m, x / 2, x % 2)), ends@[x] as int) by {
                if x < q - 1 {
                    assert(ends@[x] == old_ends[x]);
                } else {
                    assert(x == qq);
                    assert(ends@[x] == i);
                    assert(end(*m, x / 2, x % 2) == e@);
                    assert(end_ok(*m, e@));
                    assert(named(*m, node_part(e@), i as int));
                }
            }
            assert(flat_end_ok(*m, qq));
        }
    }
    proof {
        assert forall|k1: int, s1: int, k2: int, s2: int|
            0 <= k1 < m.content.links@.len() && 0 <= k2 < m.content.links@.len() && 0 <= s1 < 2 && 0 <= s2 < 2
                && (k1 != k2 || s1 != s2) implies #[trigger] end(*m, k1, s1) != #[trigger] end(*m, k2, s2) by {
            let x = 2 * k1 + s1;
            let y = 2 * k2 + s2;
            assert(x / 2 == k1 && x % 2 == s1);
            assert(y / 2 == k2 && y % 2 == s2);
            assert(seen@[x]@ != seen@[y]@);
        }
        assert forall|k: int, s: int| 0 <= k < m.content.links@.len() && 0 <= s < 2 implies end_ok(*m, #[trigger] end(*m, k, s)) by {
            let x = 2 * k + s;
            assert(x / 2 == k && x % 2 == s);
            assert(flat_end_ok(*m, x));
        }
    }
    Ok((addrs, ends))
}


/// The networkd file of one port: its address when a cable ends there, then its routes.
pub open spec fn file_text(port: Seq<char>, address: Option<Seq<char>>, routes: Seq<(Seq<char>, Seq<char>)>) -> Seq<char> {
    "[Match]\nName="@ + port + "\n[Network]\nLinkLocalAddressing=no\nIPv6AcceptRA=no\n"@
        + (match address {
            Some(a) => "Address="@ + a + "/30\n"@,
            None => Seq::empty(),
        })
        + routes_text(routes)
}

/// Route sections, each a destination and a gateway.
pub open spec fn routes_text(routes: Seq<(Seq<char>, Seq<char>)>) -> Seq<char>
    decreases routes.len(),
{
    if routes.len() == 0 {
        Seq::empty()
    } else {
        routes_text(routes.drop_last()) + ("[Route]\nDestination="@ + routes.last().0 + "\nGateway="@ + routes.last().1 + "\n"@)
    }
}

/// `a` is the address of cable end `e`: that of the end with this name, or none when
/// no cable ends there.
pub open spec fn address_planned(m: Manifest, base: int, e: Seq<char>, a: Option<Seq<char>>) -> bool {
    match a {
        Some(x) => exists|q: int| 0 <= q < 2 * m.content.links@.len() && end(m, q / 2, q % 2) == e
            && x == #[trigger] addr_text(base + 4 * (q / 2) + q % 2 + 1),
        None => forall|q: int| 0 <= q < 2 * m.content.links@.len() ==> #[trigger] end(m, q / 2, q % 2) != e,
    }
}

/// A route of node `i` out of `port`: its destination is the block of an up cable that
/// does not touch the node, and its gateway the far end of an up cable that leaves the
/// node at that port.
#[verifier::opaque]
pub open spec fn route_sound(m: Manifest, base: int, i: int, port: Seq<char>, r: (Seq<char>, Seq<char>)) -> bool {
    &&& exists|t: int| 0 <= t < m.content.links@.len() && (#[trigger] m.content.links@[t]).condition.up
        && r.0 == prefix_text(base + 4 * t)
        && node_part(end(m, t, 0)) != m.content.nodes@[i].0@ && node_part(end(m, t, 1)) != m.content.nodes@[i].0@
    &&& exists|k: int, s: int| 0 <= k < m.content.links@.len() && 0 <= s < 2 && m.content.links@[k].condition.up
        && node_part(#[trigger] end(m, k, s)) == m.content.nodes@[i].0@ && port_part(end(m, k, s)) == port
        && r.1 == addr_text(base + 4 * k + (1 - s) + 1)
    &&& exists|t: int| #[trigger] cable_wanted(m, i, t) && r.0 == prefix_text(base + 4 * t)
}

/// The file of `port` on node `i`.
pub open spec fn port_file(m: Manifest, base: int, i: int, port: Seq<char>, content: Seq<char>) -> bool {
    exists|a: Option<Seq<char>>, routes: Seq<(Seq<char>, Seq<char>)>| {
        &&& content == #[trigger] file_text(port, a, routes)
        &&& address_planned(m, base, m.content.nodes@[i].0@ + ":"@ + port, a)
        &&& forall|x: int| 0 <= x < routes.len() ==> route_sound(m, base, i, port, #[trigger] routes[x])
    }
}

/// One file list per node, in node order, and one file per port of the node.
pub open spec fn files_planned(m: Manifest, base: int, f: Seq<(String, Vec<NetworkFile>)>) -> bool {
    &&& f.len() == m.content.nodes@.len()
    &&& forall|i: int| 0 <= i < f.len() ==> {
        let n = m.content.nodes@[i];
        &&& (#[trigger] f[i]).0@ == n.0@ && f[i].1@.len() == n.1.interfaces@.len()
        &&& forall|j: int| 0 <= j < f[i].1@.len() ==> (#[trigger] f[i].1@[j]).name@ == n.1.interfaces@[j].0@
            && port_file(m, base, i, n.1.interfaces@[j].0@, f[i].1@[j].content@)
    }
}

/// An edge of the routing graph of a node: it follows end `e.3` of an up cable
/// from the node that end sits on.
pub open spec fn edge_ok(m: Manifest, ends: Seq<usize>, e: (nat, nat, Seq<char>, u128)) -> bool {
    let c = e.3 as int;
    &&& c < 2 * m.content.links@.len()
    &&& m.content.links@[c / 2].condition.up
    &&& e.2 == end(m, c / 2, c % 2)
    &&& e.0 == ends[c]
}

/// The part of `e` after its first colon.
fn port_of(e: &str) -> (r: String)
    requires
        has_char(e@, ':'),
    ensures
        r@ == port_part(e@),
{
    let n = e.unicode_len();
    match find_char(e, ':') {
        Some(c) => String::from_str(e.substring_char(c + 1, n)),
        None => String::new(),
    }
}

/// Is `(c1, p1)` before `(c2, p2)`, cost first, then the paths as sequences?
fn before(c1: usize, p1: &Vec<usize>, c2: usize, p2: &Vec<usize>) -> bool {
    if c1 != c2 {
        return c1 < c2;
    }
    let mut i: usize = 0;
    while i < p1.len() && i < p2.len()
        decreases p1@.len() - i,
    {
        if p1[i] != p2[i] {
            return p1[i] < p2[i];
        }
        i += 1;
    }
    p1.len() < p2.len()
}


/// The other end of the same cable, among the ends in order.
pub open spec fn flip(x: int) -> int {
    if x % 2 == 0 { x + 1 } else { x - 1 }
}

/// The node that end `s` of cable `k` sits on.
pub open spec fn node_at(m: Manifest, k: int, s: int) -> int {
    node_of(m, node_part(end(m, k, s)))
}

/// One step in the routing of node `si`: along an up cable, out of `si` or a switch.
pub open spec fn hop(m: Manifest, si: int, a: int, b: int) -> bool {
    exists|k: int, s: int| 0 <= k < m.content.links@.len() && 0 <= s < 2 && m.content.links@[k].condition.up
        && #[trigger] node_at(m, k, s) == a && node_at(m, k, 1 - s) == b
        && (a == si || m.content.nodes@[a].1.role == Role::Switch)
}

/// Nodes from `si`, each a step from the one before.
pub open spec fn hop_path(m: Manifest, si: int, p: Seq<int>) -> bool {
    &&& p.len() >= 1 && p[0] == si
    &&& forall|i: int| #![trigger p[i]] 0 <= i < p.len() - 1 ==> hop(m, si, p[i], p[i + 1])
}

/// Node `si` reaches `goal` in steps of its routing.
pub open spec fn hop_reachable(m: Manifest, si: int, goal: int) -> bool {
    exists|p: Seq<int>| #[trigger] hop_path(m, si, p) && p.last() == goal
}

/// Node `i` needs a route to cable `t`: the cable is up, does not touch the node, and
/// the node reaches one of its ends.
pub open spec fn cable_wanted(m: Manifest, i: int, t: int) -> bool {
    &&& 0 <= t < m.content.links@.len() && m.content.links@[t].condition.up
    &&& node_part(end(m, t, 0)) != m.content.nodes@[i].0@ && node_part(end(m, t, 1)) != m.content.nodes@[i].0@
    &&& hop_reachable(m, i, node_at(m, t, 0)) || hop_reachable(m, i, node_at(m, t, 1))
}

/// `content` is the file of `port` and holds a route to `dest`.
pub open spec fn has_route_text(port: Seq<char>, content: Seq<char>, dest: Seq<char>) -> bool {
    exists|a: Option<Seq<char>>, rs: Seq<(Seq<char>, Seq<char>)>, y: int|
        #![trigger file_text(port, a, rs), rs[y]]
        content == file_text(port, a, rs) && 0 <= y < rs.len() && rs[y].0 == dest
}

/// Every node's files route to every cable it needs a route to.
pub open spec fn routes_complete(m: Manifest, base: int, f: Seq<(String, Vec<NetworkFile>)>) -> bool {
    forall|i: int, t: int| 0 <= i < f.len() && #[trigger] cable_wanted(m, i, t) ==> exists|j: int| 0 <= j < f[i].1@.len()
        && has_route_text(f[i].1@[j].name@, f[i].1@[j].content@, prefix_text(base + 4 * t))
}

/// The routing graph of node `si`: every node, in manifest order, and an edge along each
/// end of an up cable that leaves `si` or a switch, in cable order.
fn node_graph(m: &Manifest, ends: &Vec<usize>, si: usize) -> (g: DiGraph<String, (String, u128)>)
    requires
        m.content.nodes@.len() < u32::MAX,
        4 * m.content.links@.len() <= 16777216,
        ends@.len() == 2 * m.content.links@.len(),
        forall|q: int| 0 <= q < ends@.len() ==> #[trigger] ends@[q] < m.content.nodes@.len(),
        forall|q: int| 0 <= q < ends@.len() ==> named(*m, node_part(end(*m, q / 2, q % 2)), #[trigger] ends@[q] as int),
    ensures
        graph_nodes(g).len() == m.content.nodes@.len(),
        forall|x: int| 0 <= x < graph_edges(g).len() ==> edge_ok(*m, ends@, #[trigger] graph_edges(g)[x]),
        forall|a: int, b: int| #[trigger] hop(*m, si as int, a, b) ==> has_edge(graph_edges(g), a as nat, b as nat),
        forall|x: int| 0 <= x < graph_edges(g).len()
            ==> hop(*m, si as int, (#[trigger] graph_edges(g)[x]).0 as int, graph_edges(g)[x].1 as int),
{
    let mut g = graph_new();
    let mut i: usize = 0;
    while i < m.content.nodes.len()
        invariant
            i <= m.content.nodes@.len() < u32::MAX,
            graph_nodes(g).len() == i,
            graph_edges(g).len() == 0,
        decreases m.content.nodes@.len() - i,
    {
        graph_add_node(&mut g, m.content.nodes[i].0.clone());
        i += 1;
    }
    let links = &m.content.links;
    let mut q: usize = 0;
    while q < 2 * links.len()
        invariant
            *links == m.content.links,
            4 * links@.len() <= 16777216,
            q <= 2 * links@.len(),
            ends@.len() == 2 * links@.len(),
            forall|x: int| 0 <= x < ends@.len() ==> #[trigger] ends@[x] < m.content.nodes@.len(),
            graph_nodes(g).len() == m.content.nodes@.len(),
            graph_edges(g).len() <= q,
            forall|x: int| 0 <= x < graph_edges(g).len() ==> edge_ok(*m, ends@, #[trigger] graph_edges(g)[x]),
            forall|x: int| 0 <= x < graph_edges(g).len()
                ==> hop(*m, si as int, (#[trigger] graph_edges(g)[x]).0 as int, graph_edges(g)[x].1 as int),
            forall|x: int| 0 <= x < ends@.len() ==> named(*m, node_part(end(*m, x / 2, x % 2)), #[trigger] ends@[x] as int),
            forall|x: int| #![trigger ends@[x]] 0 <= x < q && m.content.links@[x / 2].condition.up
                && (ends@[x] == si || m.content.nodes@[ends@[x] as int].1.role == Role::Switch)
                ==> has_edge(graph_edges(g), ends@[x] as nat, ends@[flip(x)] as nat),
        decreases 2 * links@.len() - q,
    {
        let k = q / 2;
        let s = q % 2;
        let ghost ge_before = graph_edges(g);
        if links[k].condition.up {
            let a = ends[q];
            let b = if s == 0 { ends[q + 1] } else { ends[q - 1] };
            if a == si || m.content.nodes[a].1.role == Role::Switch {
                let ghost before = graph_edges(g);
                graph_add_edge(&mut g, a, b, links[k].endpoints[s].clone(), q as u128);
                proof {
                    assert(graph_edges(g)[before.len() as int] == (a as nat, b as nat, links@[k as int].endpoints[s as int]@, q as u128));
                    assert(has_edge(graph_edges(g), a as nat, b as nat));
                    let qi = q as int;
                    let fi = if s == 0 { qi + 1 } else { qi - 1 };
                    assert(qi / 2 == k as int && qi % 2 == s as int && fi / 2 == k as int && fi % 2 == 1 - s as int);
                    assert(named(*m, node_part(end(*m, qi / 2, qi % 2)), ends@[qi] as int));
                    assert(named(*m, node_part(end(*m, fi / 2, fi % 2)), ends@[fi] as int));
                    lemma_named(*m, node_part(end(*m, k as int, s as int)), a as int);
                    lemma_named(*m, node_part(end(*m, k as int, 1 - s as int)), b as int);
                    assert(node_at(*m, k as int, s as int) == a as int);
                    assert(node_at(*m, k as int, 1 - s as int) == b as int);
                    assert(m.content.links@[k as int].condition.up);
                    assert(hop(*m, si as int, a as int, b as int));
                    assert forall|x: int| 0 <= x < graph_edges(g).len()
                        implies hop(*m, si as int, (#[trigger] graph_edges(g)[x]).0 as int, graph_edges(g)[x].1 as int) by {
                        if x < before.len() {
                            assert(graph_edges(g)[x] == before[x]);
                        }
                    }
                    assert((q as int) / 2 == k as int && (q as int) % 2 == s as int);
                    assert forall|x: int| 0 <= x < graph_edges(g).len() implies edge_ok(*m, ends@, #[trigger] graph_edges(g)[x]) by {
                        if x < before.len() {
                            assert(graph_edges(g)[x] == before[x]);
                        }
                    }
                }
            }
        }
        proof {
            let qi = q as int;
            assert forall|x: int| #![trigger ends@[x]] 0 <= x < qi + 1 && m.content.links@[x / 2].condition.up
                && (ends@[x] == si || m.content.nodes@[ends@[x] as int].1.role == Role::Switch)
                implies has_edge(graph_edges(g), ends@[x] as nat, ends@[flip(x)] as nat) by {
                if x < qi {
                    assert(has_edge(ge_before, ends@[x] as nat, ends@[flip(x)] as nat));
                    let e = choose|e: int| 0 <= e < ge_before.len() && (#[trigger] ge_before[e]).0 == ends@[x] as nat
                        && ge_before[e].1 == ends@[flip(x)] as nat;
                    assert(graph_edges(g)[e] == ge_before[e]);
                } else {
                    assert(x / 2 == k as int && x % 2 == s as int);
                }
            }
        }
        q += 1;
    }
    proof {
        assert forall|a: int, b: int| #[trigger] hop(*m, si as int, a, b) implies has_edge(graph_edges(g), a as nat, b as nat) by {
            let (k, s) = choose|k: int, s: int| 0 <= k < m.content.links@.len() && 0 <= s < 2 && m.content.links@[k].condition.up
                && #[trigger] node_at(*m, k, s) == a && node_at(*m, k, 1 - s) == b
                && (a == si || m.content.nodes@[a].1.role == Role::Switch);
            let x = 2 * k + s;
            let y = 2 * k + (1 - s);
            assert(x / 2 == k && x % 2 == s && y / 2 == k && y % 2 == 1 - s);
            assert(named(*m, node_part(end(*m, x / 2, x % 2)), ends@[x] as int));
            assert(named(*m, node_part(end(*m, y / 2, y % 2)), ends@[y] as int));
            lemma_named(*m, node_part(end(*m, k, s)), ends@[x] as int);
            lemma_named(*m, node_part(end(*m, k, 1 - s)), ends@[y] as int);
            assert(ends@[flip(x)] == ends@[y]);
        }
    }
    g
}

/// A walk through a graph whose every edge is a routing step is a path of steps.
proof fn lemma_walk_hops(m: Manifest, si: int, ge: Seq<(nat, nat, Seq<char>, u128)>, p: Seq<usize>)
    requires
        graph_walk(ge, p),
        p[0] as int == si,
        forall|x: int| 0 <= x < ge.len() ==> hop(m, si, (#[trigger] ge[x]).0 as int, ge[x].1 as int),
    ensures
        hop_path(m, si, p.map_values(|v: usize| v as int)),
        hop_reachable(m, si, p.last() as int),
{
    let p2 = p.map_values(|v: usize| v as int);
    assert forall|i: int| #![trigger p2[i]] 0 <= i < p2.len() - 1 implies hop(m, si, p2[i], p2[i + 1]) by {
        assert(has_edge(ge, p[i] as nat, p[i + 1] as nat));
        let e = choose|e: int| 0 <= e < ge.len() && (#[trigger] ge[e]).0 == p[i] as nat && ge[e].1 == p[i + 1] as nat;
        assert(hop(m, si, ge[e].0 as int, ge[e].1 as int));
    }
    assert(hop_path(m, si, p2));
    assert(p2.last() == p.last() as int);
}

/// A path of routing steps from `si` is a walk through a graph that has an edge for
/// every step.
proof fn lemma_hop_walk(m: Manifest, si: int, ends: Seq<usize>, ge: Seq<(nat, nat, Seq<char>, u128)>, p: Seq<int>)
    requires
        hop_path(m, si, p),
        0 <= si < m.content.nodes@.len() < u32::MAX,
        ends.len() == 2 * m.content.links@.len(),
        forall|q: int| 0 <= q < ends.len() ==> named(m, node_part(end(m, q / 2, q % 2)), #[trigger] ends[q] as int),
        forall|a: int, b: int| #[trigger] hop(m, si, a, b) ==> has_edge(ge, a as nat, b as nat),
    ensures
        graph_walk(ge, p.map_values(|v: int| v as usize)),
        p.map_values(|v: int| v as usize)[0] as int == si,
        p.map_values(|v: int| v as usize).last() as int == p.last(),
{
    let p2 = p.map_values(|v: int| v as usize);
    assert forall|i: int| 0 <= i < p.len() implies 0 <= #[trigger] p[i] < m.content.nodes@.len() by {
        if i > 0 {
            assert(hop(m, si, p[i - 1], p[i]));
            let (k, s) = choose|k: int, s: int| 0 <= k < m.content.links@.len() && 0 <= s < 2 && m.content.links@[k].condition.up
                && #[trigger] node_at(m, k, s) == p[i - 1] && node_at(m, k, 1 - s) == p[i]
                && (p[i - 1] == si || m.content.nodes@[p[i - 1]].1.role == Role::Switch);
            let q = 2 * k + (1 - s);
            assert(q / 2 == k && q % 2 == 1 - s);
            assert(named(m, node_part(end(m, q / 2, q % 2)), ends[q] as int));
            lemma_named(m, node_part(end(m, k, 1 - s)), ends[q] as int);
        }
    }
    assert forall|i: int| #![trigger p2[i]] 0 <= i < p2.len() - 1 implies has_edge(ge, p2[i] as nat, p2[i + 1] as nat) by {
        assert(hop(m, si, p[i], p[i + 1]));
        assert(0 <= p[i] < u32::MAX && 0 <= p[i + 1] < u32::MAX);
        assert(p2[i] as int == p[i] && p2[i + 1] as int == p[i + 1]);
    }
    assert(0 <= p[p.len() - 1]);
}

/// The routes of node `si`, each with the port it leaves by: for every up cable that
/// does not touch the node, the first hop of the shortest path to either of its ends.
#[verifier::spinoff_prover]
#[verifier::rlimit(40)]
fn node_routes(m: &Manifest, base: u64, ends: &Vec<usize>, si: usize, g: &DiGraph<String, (String, u128)>)
    -> (r: Vec<(String, String, String)>)
    requires
        si < m.content.nodes@.len() < u32::MAX,
        base < 0x1_0000_0000,
        4 * m.content.links@.len() <= 16777216,
        ends@.len() == 2 * m.content.links@.len(),
        forall|q: int| 0 <= q < ends@.len() ==> named(*m, node_part(end(*m, q / 2, q % 2)), #[trigger] ends@[q] as int),
        forall|k: int, s: int| 0 <= k < m.content.links@.len() && 0 <= s < 2 ==> end_ok(*m, #[trigger] end(*m, k, s)),
        graph_nodes(*g).len() == m.content.nodes@.len(),
        forall|x: int| 0 <= x < graph_edges(*g).len() ==> edge_ok(*m, ends@, #[trigger] graph_edges(*g)[x]),
        forall|a: int, b: int| #[trigger] hop(*m, si as int, a, b) ==> has_edge(graph_edges(*g), a as nat, b as nat),
        forall|x: int| 0 <= x < graph_edges(*g).len()
            ==> hop(*m, si as int, (#[trigger] graph_edges(*g)[x]).0 as int, graph_edges(*g)[x].1 as int),
    ensures
        forall|x: int| 0 <= x < r@.len() ==> route_sound(*m, base as int, si as int, (#[trigger] r@[x]).0@, (r@[x].1@, r@[x].2@)),
        forall|x: int| 0 <= x < r@.len() ==> has_port(*m, si as int, (#[trigger] r@[x]).0@),
        forall|t: int| #[trigger] cable_wanted(*m, si as int, t) ==> exists|x: int| 0 <= x < r@.len()
            && (#[trigger] r@[x]).1@ == prefix_text(base + 4 * t),
{
    let links = &m.content.links;
    let nodes = &m.content.nodes;
    let mut routes: Vec<(String, String, String)> = Vec::new();
    let mut t: usize = 0;
    while t < links.len()
        invariant
            *links == m.content.links,
            *nodes == m.content.nodes,
            t <= links@.len(),
            si < nodes@.len() < u32::MAX,
            base < 0x1_0000_0000,
            4 * links@.len() <= 16777216,
            ends@.len() == 2 * links@.len(),
            forall|q: int| 0 <= q < ends@.len() ==> named(*m, node_part(end(*m, q / 2, q % 2)), #[trigger] ends@[q] as int),
            forall|k: int, s: int| 0 <= k < m.content.links@.len() && 0 <= s < 2 ==> end_ok(*m, #[trigger] end(*m, k, s)),
            graph_nodes(*g).len() == nodes@.len(),
            forall|x: int| 0 <= x < graph_edges(*g).len() ==> edge_ok(*m, ends@, #[trigger] graph_edges(*g)[x]),
            forall|x: int| 0 <= x < routes@.len() ==> route_sound(*m, base as int, si as int, (#[trigger] routes@[x]).0@,
                (routes@[x].1@, routes@[x].2@)),
            forall|a: int, b: int| #[trigger] hop(*m, si as int, a, b) ==> has_edge(graph_edges(*g), a as nat, b as nat),
            forall|x: int| 0 <= x < graph_edges(*g).len()
                ==> hop(*m, si as int, (#[trigger] graph_edges(*g)[x]).0 as int, graph_edges(*g)[x].1 as int),
            forall|x: int| 0 <= x < routes@.len() ==> has_port(*m, si as int, (#[trigger] routes@[x]).0@),
            forall|t0: int| t0 < t && #[trigger] cable_wanted(*m, si as int, t0) ==> exists|x: int| 0 <= x < routes@.len()
                && (#[trigger] routes@[x]).1@ == prefix_text(base + 4 * t0),
        decreases links@.len() - t,
    {
        let ghost routes0 = routes@;
        let ghost mut pushed = false;
        let e0 = ends[2 * t];
        let e1 = ends[2 * t + 1];
        proof {
            let q0 = 2 * t as int;
            let q1 = 2 * t as int + 1;
            assert(q0 / 2 == t as int && q0 % 2 == 0 && q1 / 2 == t as int && q1 % 2 == 1);
            assert(named(*m, node_part(end(*m, q0 / 2, q0 % 2)), ends@[q0] as int));
            assert(named(*m, node_part(end(*m, q1 / 2, q1 % 2)), ends@[q1] as int));
            lemma_named(*m, node_part(end(*m, t as int, 0)), e0 as int);
            lemma_named(*m, node_part(end(*m, t as int, 1)), e1 as int);
        }
        let ghost wanted = cable_wanted(*m, si as int, t as int);
        let ghost ge = graph_edges(*g);
        proof {
            if wanted {
                let target = if hop_reachable(*m, si as int, node_at(*m, t as int, 0)) { 0int } else { 1int };
                let p = choose|p: Seq<int>| #[trigger] hop_path(*m, si as int, p) && p.last() == node_at(*m, t as int, target);
                lemma_hop_walk(*m, si as int, ends@, ge, p);
                let p2 = p.map_values(|v: int| v as usize);
                assert(graph_walk(ge, p2) && p2[0] == si);
                if target == 0 {
                    assert(p2.last() == e0);
                } else {
                    assert(p2.last() == e1);
                }
            }
        }
        if links[t].condition.up && !str_eq(nodes[e0].0.as_str(), nodes[si].0.as_str())
            && !str_eq(nodes[e1].0.as_str(), nodes[si].0.as_str()) {
            let mut best: Option<(usize, Vec<usize>)> = None;
            let a0 = graph_astar(g, si, e0);
            if let Some((c, p)) = a0 {
                best = Some((c, p));
            }
            let a1 = graph_astar(g, si, e1);
            if let Some((c, p)) = a1 {
                let replace = match &best {
                    None => true,
                    Some((bc, bp)) => before(c, &p, *bc, bp),
                };
                if replace {
                    best = Some((c, p));
                }
            }
            proof {
                if wanted {
                    assert(a0 is Some || a1 is Some);
                }
                assert(e0 != si && e1 != si);
            }
            assert(wanted ==> best is Some);
            assert(best matches Some(b) ==> graph_walk(ge, b.1@) && b.1@[0] == si && (b.1@.last() == e0 || b.1@.last() == e1));
            if let Some((_, path)) = best {
                proof {
                    if path@.len() < 2 {
                        assert(path@.last() == path@[0]);
                    }
                }
                assert(path@.len() >= 2);
                if path.len() >= 2 {
                    proof {
                        assert(has_edge(ge, path@[0] as nat, path@[1] as nat));
                        let e = choose|e: int| 0 <= e < ge.len() && (#[trigger] ge[e]).0 == path@[0] as nat && ge[e].1 == path@[1] as nat;
                        lemma_out_edge_listed(ge, si as nat, e);
                    }
                    let fe = graph_find_edge(g, si, path[1]);
                    assert(fe is Some);
                    if let Some((from, code)) = fe {
                        let ghost edges = graph_edges(*g);
                        proof {
                            let i = choose|i: int| 0 <= i < out_edges(edges, si as nat).len()
                                && (#[trigger] out_edges(edges, si as nat)[i]).0 == path[1]
                                && out_edges(edges, si as nat)[i].1 == from@ && out_edges(edges, si as nat)[i].2 == code
                                && forall|j: int| 0 <= j < i ==> out_edges(edges, si as nat)[j].0 != path[1];
                            lemma_out_edge(edges, si as nat, i);
                            let kk = choose|kk: int| 0 <= kk < edges.len() && #[trigger] edges[kk] == (si as nat,
                                out_edges(edges, si as nat)[i].0, out_edges(edges, si as nat)[i].1, out_edges(edges, si as nat)[i].2);
                            assert(edge_ok(*m, ends@, edges[kk]));
                            let c = code as int;
                            assert(c < 2 * links@.len());
                            assert(from@ == end(*m, c / 2, c % 2));
                            assert(ends@[c] == si);
                            assert(named(*m, node_part(end(*m, c / 2, c % 2)), ends@[c] as int));
                            assert(end_ok(*m, end(*m, c / 2, c % 2)));
                        }
                        let port = port_of(from.as_str());
                        let c = code as u64;
                        let k = c / 2;
                        let s = c % 2;
                        let gw = addr_string(base + 4 * k + (1 - s) + 1);
                        let mut dest = addr_string(base + 4 * (t as u64));
                        append(&mut dest, "/30");
                        let ghost old_routes = routes@;
                        routes.push((port, dest, gw));
                        proof {
                            let r = routes@[routes@.len() - 1];
                            lemma_walk_hops(*m, si as int, ge, path@);
                            assert(path@.last() == e0 || path@.last() == e1);
                            assert(cable_wanted(*m, si as int, t as int));
                            assert(route_sound(*m, base as int, si as int, r.0@, (r.1@, r.2@))) by {
                                reveal(route_sound);
                                assert(m.content.links@[t as int].condition.up);
                                assert(node_part(end(*m, k as int, s as int)) == m.content.nodes@[si as int].0@);
                            }
                            let ci = code as int;
                            lemma_named(*m, node_part(end(*m, ci / 2, ci % 2)), si as int);
                            assert(has_port(*m, si as int, port_part(end(*m, ci / 2, ci % 2))));
                            assert forall|x: int| 0 <= x < routes@.len() implies has_port(*m, si as int, (#[trigger] routes@[x]).0@) by {
                                if x < old_routes.len() {
                                    assert(routes@[x] == old_routes[x]);
                                } else {
                                    assert(routes@[x].0@ == port_part(end(*m, ci / 2, ci % 2)));
                                }
                            }
                            pushed = true;
                            assert forall|x: int| 0 <= x < routes@.len() implies route_sound(*m, base as int, si as int,
                                (#[trigger] routes@[x]).0@, (routes@[x].1@, routes@[x].2@)) by {
                                if x < old_routes.len() {
                                    assert(routes@[x] == old_routes[x]);
                                }
                            }
                        }
                    }
                }
            }
        }
        assert(wanted ==> pushed);
        proof {
            assert forall|t0: int| t0 < t + 1 && #[trigger] cable_wanted(*m, si as int, t0) implies exists|x: int|
                0 <= x < routes@.len() && (#[trigger] routes@[x]).1@ == prefix_text(base + 4 * t0) by {
                if t0 < t {
                    let x = choose|x: int| 0 <= x < routes0.len() && (#[trigger] routes0[x]).1@ == prefix_text(base + 4 * t0);
                    assert(routes@[x] == routes0[x]);
                } else {
                    assert(routes@[routes@.len() - 1].1@ == prefix_text(base + 4 * t0));
                }
            }
        }
        t += 1;
    }
    routes
}


pub open spec fn text_of(o: Option<String>) -> Option<Seq<char>> {
    match o {
        Some(s) => Some(s@),
        None => None,
    }
}

/// The address given to cable end `e`, if a cable ends there.
fn lookup(m: &Manifest, base: u64, addrs: &Vec<(String, String)>, e: &str) -> (r: Option<String>)
    requires
        addresses_planned(*m, base as nat, addrs@),
    ensures
        address_planned(*m, base as int, e@, text_of(r)),
{
    let mut x: usize = 0;
    while x < addrs.len()
        invariant
            x <= addrs@.len(),
            addresses_planned(*m, base as nat, addrs@),
            forall|y: int| 0 <= y < x ==> addrs@[y].0@ != e@,
        decreases addrs@.len() - x,
    {
        if str_eq(addrs[x].0.as_str(), e) {
            let r = addrs[x].1.clone();
            proof {
                let xi = x as int;
                assert(addrs@[xi].0@ == end(*m, xi / 2, xi % 2));
                assert(r@ == addr_text(base + 4 * (xi / 2) + xi % 2 + 1));
            }
            return Some(r);
        }
        x += 1;
    }
    proof {
        assert forall|q: int| 0 <= q < 2 * m.content.links@.len() implies #[trigger] end(*m, q / 2, q % 2) != e@ by {
            assert(addrs@[q].0@ == end(*m, q / 2, q % 2));
        }
    }
    None
}

#[verifier::opaque]
pub open spec fn all_sound(m: Manifest, base: int, si: int, routes: Seq<(String, String, String)>) -> bool {
    forall|x: int| 0 <= x < routes.len() ==> route_sound(m, base, si, (#[trigger] routes[x]).0@, (routes[x].1@, routes[x].2@))
}

#[verifier::opaque]
pub open spec fn chosen_sound(m: Manifest, base: int, si: int, port: Seq<char>, chosen: Seq<(Seq<char>, Seq<char>)>) -> bool {
    forall|y: int| 0 <= y < chosen.len() ==> route_sound(m, base, si, port, #[trigger] chosen[y])
}

/// Every route before `x` that leaves by `port` is among `chosen`.
pub open spec fn covers(routes: Seq<(String, String, String)>, port: Seq<char>, chosen: Seq<(Seq<char>, Seq<char>)>, x: int) -> bool {
    forall|z: int| 0 <= z < x && (#[trigger] routes[z]).0@ == port
        ==> exists|y: int| 0 <= y < chosen.len() && (#[trigger] chosen[y]).0 == routes[z].1@
}

/// The file of `port` on node `si`, with the routes that leave by it, in order.
fn port_content(m: &Manifest, base: u64, addrs: &Vec<(String, String)>, routes: &Vec<(String, String, String)>,
    si: usize, port: &str) -> (r: String)
    requires
        si < m.content.nodes@.len(),
        addresses_planned(*m, base as nat, addrs@),
        forall|x: int| 0 <= x < routes@.len() ==> route_sound(*m, base as int, si as int, (#[trigger] routes@[x]).0@,
            (routes@[x].1@, routes@[x].2@)),
    ensures
        port_file(*m, base as int, si as int, port@, r@),
        forall|z: int| 0 <= z < routes@.len() && (#[trigger] routes@[z]).0@ == port@
            ==> has_route_text(port@, r@, routes@[z].1@),
{
    proof { reveal(all_sound); reveal(chosen_sound); }
    let mut e = m.content.nodes[si].0.clone();
    append(&mut e, ":");
    append(&mut e, port);
    let address = lookup(m, base, addrs, e.as_str());
    let mut content = String::new();
    append(&mut content, "[Match]\nName=");
    append(&mut content, port);
    append(&mut content, "\n[Network]\nLinkLocalAddressing=no\nIPv6AcceptRA=no\n");
    match &address {
        Some(a) => {
            append(&mut content, "Address=");
            append(&mut content, a.as_str());
            append(&mut content, "/30\n");
        },
        None => {},
    }
    let ghost head = content@;
    proof {
        assert(head =~= "[Match]\nName="@ + port@ + "\n[Network]\nLinkLocalAddressing=no\nIPv6AcceptRA=no\n"@
            + (match text_of(address) {
                Some(a) => "Address="@ + a + "/30\n"@,
                None => Seq::<char>::empty(),
            }));
    }
    let ghost mut chosen: Seq<(Seq<char>, Seq<char>)> = Seq::empty();
    let mut x: usize = 0;
    while x < routes.len()
        invariant
            x <= routes@.len(),
            content@ == head + routes_text(chosen),
            chosen_sound(*m, base as int, si as int, port@, chosen),
            all_sound(*m, base as int, si as int, routes@),
            covers(routes@, port@, chosen, x as int),
        decreases routes@.len() - x,
    {
        let ghost chosen0 = chosen;
        if str_eq(routes[x].0.as_str(), port) {
            let ghost before = content@;
            let ghost old_chosen = chosen;
            append(&mut content, "[Route]\nDestination=");
            append(&mut content, routes[x].1.as_str());
            append(&mut content, "\nGateway=");
            append(&mut content, routes[x].2.as_str());
            append(&mut content, "\n");
            proof {
                reveal(all_sound);
                reveal(chosen_sound);
                let item = (routes@[x as int].1@, routes@[x as int].2@);
                chosen = chosen.push(item);
                assert(chosen.drop_last() =~= old_chosen);
                assert(content@ =~= head + routes_text(chosen));
                assert(route_sound(*m, base as int, si as int, routes@[x as int].0@, item));
                assert forall|y: int| 0 <= y < chosen.len() implies route_sound(*m, base as int, si as int, port@, #[trigger] chosen[y]) by {
                    if y < old_chosen.len() {
                        assert(chosen[y] == old_chosen[y]);
                    }
                }
            }
        }
        proof {
            assert forall|z: int| 0 <= z < x + 1 && (#[trigger] routes@[z]).0@ == port@
                implies exists|y: int| 0 <= y < chosen.len() && (#[trigger] chosen[y]).0 == routes@[z].1@ by {
                if z < x {
                    let y = choose|y: int| 0 <= y < chosen0.len() && (#[trigger] chosen0[y]).0 == routes@[z].1@;
                    assert(chosen[y] == chosen0[y]);
                } else {
                    assert(chosen[chosen.len() - 1].0 == routes@[z].1@);
                }
            }
        }
        x += 1;
    }
    proof {
        reveal(chosen_sound);
        assert(content@ =~= file_text(port@, text_of(address), chosen));
        assert forall|z: int| 0 <= z < routes@.len() && (#[trigger] routes@[z]).0@ == port@
            implies has_route_text(port@, content@, routes@[z].1@) by {
            let y = choose|y: int| 0 <= y < chosen.len() && (#[trigger] chosen[y]).0 == routes@[z].1@;
            assert(content@ == file_text(port@, text_of(address), chosen) && chosen[y].0 == routes@[z].1@);
        }
        assert(address_planned(*m, base as int, m.content.nodes@[si as int].0@ + ":"@ + port@, text_of(address)));
    }
    content
}

/// The file of `port` holds a route to the destination of every route that leaves by it.
pub open spec fn file_routes(port: Seq<char>, content: Seq<char>, routes: Seq<(String, String, String)>) -> bool {
    forall|z: int| 0 <= z < routes.len() && (#[trigger] routes[z]).0@ == port ==> has_route_text(port, content, routes[z].1@)
}

/// The files of node `si`, one per port in the node's order.
fn node_files(m: &Manifest, base: u64, addrs: &Vec<(String, String)>, ends: &Vec<usize>, si: usize)
    -> (r: Vec<NetworkFile>)
    requires
        m.content.nodes@.len() < u32::MAX,
        si < m.content.nodes@.len(),
        base < 0x1_0000_0000,
        4 * m.content.links@.len() <= 16777216,
        addresses_planned(*m, base as nat, addrs@),
        ends@.len() == 2 * m.content.links@.len(),
        forall|q: int| 0 <= q < ends@.len() ==> named(*m, node_part(end(*m, q / 2, q % 2)), #[trigger] ends@[q] as int),
        forall|k: int, s: int| 0 <= k < m.content.links@.len() && 0 <= s < 2 ==> end_ok(*m, #[trigger] end(*m, k, s)),
    ensures
        r@.len() == m.content.nodes@[si as int].1.interfaces@.len(),
        forall|j: int| 0 <= j < r@.len() ==> (#[trigger] r@[j]).name@ == m.content.nodes@[si as int].1.interfaces@[j].0@
            && port_file(*m, base as int, si as int, m.content.nodes@[si as int].1.interfaces@[j].0@, r@[j].content@),
        forall|t: int| #[trigger] cable_wanted(*m, si as int, t) ==> exists|j: int| 0 <= j < r@.len()
            && has_route_text(r@[j].name@, r@[j].content@, prefix_text(base + 4 * t)),
{
    proof {
        assert forall|q: int| 0 <= q < ends@.len() implies #[trigger] ends@[q] < m.content.nodes@.len() by {
            assert(named(*m, node_part(end(*m, q / 2, q % 2)), ends@[q] as int));
        }
    }
    let g = node_graph(m, ends, si);
    let routes = node_routes(m, base, ends, si, &g);
    let ifs = &m.content.nodes[si].1.interfaces;
    let mut files: Vec<NetworkFile> = Vec::new();
    let mut j: usize = 0;
    while j < ifs.len()
        invariant
            *ifs == m.content.nodes@[si as int].1.interfaces,
            j <= ifs@.len(),
            si < m.content.nodes@.len(),
            addresses_planned(*m, base as nat, addrs@),
            forall|x: int| 0 <= x < routes@.len() ==> route_sound(*m, base as int, si as int, (#[trigger] routes@[x]).0@,
                (routes@[x].1@, routes@[x].2@)),
            files@.len() == j,
            forall|y: int| 0 <= y < j ==> (#[trigger] files@[y]).name@ == ifs@[y].0@
                && port_file(*m, base as int, si as int, ifs@[y].0@, files@[y].content@),
            forall|y: int| 0 <= y < j ==> file_routes(ifs@[y].0@, (#[trigger] files@[y]).content@, routes@),
        decreases ifs@.len() - j,
    {
        let content = port_content(m, base, addrs, &routes, si, ifs[j].0.as_str());
        let ghost old_files = files@;
        files.push(NetworkFile { name: ifs[j].0.clone(), content });
        proof {
            assert forall|y: int| 0 <= y < j + 1 implies (#[trigger] files@[y]).name@ == ifs@[y].0@
                && port_file(*m, base as int, si as int, ifs@[y].0@, files@[y].content@) by {
                if y < j {
                    assert(files@[y] == old_files[y]);
                }
            }
            assert forall|y: int| 0 <= y < j + 1 implies file_routes(ifs@[y].0@, (#[trigger] files@[y]).content@, routes@) by {
                if y < j {
                    assert(files@[y] == old_files[y]);
                }
            }
        }
        j += 1;
    }
    proof {
        assert forall|t: int| #[trigger] cable_wanted(*m, si as int, t) implies exists|j: int| 0 <= j < files@.len()
            && has_route_text(files@[j].name@, files@[j].content@, prefix_text(base + 4 * t)) by {
            let x = choose|x: int| 0 <= x < routes@.len() && (#[trigger] routes@[x]).1@ == prefix_text(base + 4 * t);
            assert(has_port(*m, si as int, routes@[x].0@));
            let j = choose|j: int| 0 <= j < ifs@.len() && ifs@[j].0@ == routes@[x].0@;
            assert(file_routes(ifs@[j].0@, files@[j].content@, routes@));
            assert(files@[j].name@ == ifs@[j].0@);
        }
    }
    files
}

/// The guest configuration of the native fabric for `manifest` on the lab `pool`:
/// each cable gets the next /30 of the pool, its ends the first and second host
/// addresses; only switches forward; a node has a route to the block of an up cable
/// exactly when the cable does not touch it and the node reaches one of its ends over
/// up cables with only switches in between; a route leaves by the port of an up cable
/// of the node, toward that cable's far end. Every failure is an invalid input.
pub fn network(manifest: &Manifest, pool: &str) -> (r: Result<GuestConfig>)
    requires
        manifest.content.nodes@.len() < u32::MAX,
    ensures
        r is Ok <==> network_ok(*manifest, pool@),
        r is Err ==> r->Err_0 is Invalid,
        r matches Ok(g) ==> addresses_planned(*manifest, pool_base(pool@), g.ncp_addresses@),
        r matches Ok(g) ==> forwarding_planned(*manifest, g.ncp_forwarding@),
        r matches Ok(g) ==> files_planned(*manifest, pool_base(pool@) as int, g.ncp_network_files@),
        r matches Ok(g) ==> routes_complete(*manifest, pool_base(pool@) as int, g.ncp_network_files@),
{
    let (base, size) = match parse_pool(pool) {
        Some(p) => p,
        None => {
            return Err(invalid("the lab pool must be a canonical IPv4 CIDR block from /8 to /30"));
        },
    };
    let (addrs, ends) = match allocate(manifest, base, size) {
        Ok(p) => p,
        Err(e) => {
            return Err(e);
        },
    };
    if manifest.content.links.len() == 0 {
        return Err(invalid("native fabric needs at least one cable"));
    }
    let nodes = &manifest.content.nodes;
    let mut forwarding: Vec<(String, bool)> = Vec::new();
    let mut files: Vec<(String, Vec<NetworkFile>)> = Vec::new();
    let mut i: usize = 0;
    while i < nodes.len()
        invariant
            *nodes == manifest.content.nodes,
            i <= nodes@.len() < u32::MAX,
            base < 0x1_0000_0000,
            4 * manifest.content.links@.len() <= size <= 16777216,
            addresses_planned(*manifest, base as nat, addrs@),
            ends@.len() == 2 * manifest.content.links@.len(),
            forall|q: int| 0 <= q < ends@.len() ==> named(*manifest, node_part(end(*manifest, q / 2, q % 2)),
                #[trigger] ends@[q] as int),
            forall|k: int, s: int| 0 <= k < manifest.content.links@.len() && 0 <= s < 2
                ==> end_ok(*manifest, #[trigger] end(*manifest, k, s)),
            forwarding@.len() == i && files@.len() == i,
            forall|y: int| 0 <= y < i ==> (#[trigger] forwarding@[y]).0@ == nodes@[y].0@
                && (forwarding@[y].1 <==> nodes@[y].1.role == Role::Switch),
            forall|y: int| 0 <= y < i ==> {
                let n = nodes@[y];
                &&& (#[trigger] files@[y]).0@ == n.0@ && files@[y].1@.len() == n.1.interfaces@.len()
                &&& forall|j: int| 0 <= j < files@[y].1@.len() ==> (#[trigger] files@[y].1@[j]).name@ == n.1.interfaces@[j].0@
                    && port_file(*manifest, base as int, y, n.1.interfaces@[j].0@, files@[y].1@[j].content@)
            },
            forall|y: int, t: int| 0 <= y < i && #[trigger] cable_wanted(*manifest, y, t) ==> exists|j: int|
                0 <= j < files@[y].1@.len() && has_route_text(files@[y].1@[j].name@, files@[y].1@[j].content@,
                    prefix_text(base + 4 * t)),
        decreases nodes@.len() - i,
    {
        let f = node_files(manifest, base, &addrs, &ends, i);
        let ghost old_forwarding = forwarding@;
        let ghost old_files = files@;
        forwarding.push((nodes[i].0.clone(), nodes[i].1.role == Role::Switch));
        files.push((nodes[i].0.clone(), f));
        proof {
            assert forall|y: int| 0 <= y < i + 1 implies (#[trigger] forwarding@[y]).0@ == nodes@[y].0@
                && (forwarding@[y].1 <==> nodes@[y].1.role == Role::Switch) by {
                if y < i {
                    assert(forwarding@[y] == old_forwarding[y]);
                }
            }
            assert forall|y: int| 0 <= y < i + 1 implies {
                let n = nodes@[y];
                &&& (#[trigger] files@[y]).0@ == n.0@ && files@[y].1@.len() == n.1.interfaces@.len()
                &&& forall|j: int| 0 <= j < files@[y].1@.len() ==> (#[trigger] files@[y].1@[j]).name@ == n.1.interfaces@[j].0@
                    && port_file(*manifest, base as int, y, n.1.interfaces@[j].0@, files@[y].1@[j].content@)
            } by {
                if y < i {
                    assert(files@[y] == old_files[y]);
                }
            }
            assert forall|y: int, t: int| 0 <= y < i + 1 && #[trigger] cable_wanted(*manifest, y, t) implies exists|j: int|
                0 <= j < files@[y].1@.len() && has_route_text(files@[y].1@[j].name@, files@[y].1@[j].content@,
                    prefix_text(base + 4 * t)) by {
                if y < i {
                    assert(files@[y] == old_files[y]);
                } else {
                    assert(files@[y].1 == f);
                }
            }
        }
        i += 1;
    }
    Ok(GuestConfig { ncp_network_files: files, ncp_forwarding: forwarding, ncp_addresses: addrs })
}

} // verus!
