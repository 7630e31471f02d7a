//! Plans for deploying the NVIDIA Mokka GPU mock onto Kubernetes nodes that the
//! topology's GPU hosts are bound to. Checking the pinned upstream checkout,
//! reading its profiles and running Helm are the caller's business; the plan
//! never claims NCCL or RDMA payloads were exercised.
use vstd::prelude::*;
use crate::keyed::str_eq;
use crate::model::{Error, Result, Role, invalid, pair_get, pairs_get};
use crate::manifest::{Manifest, ManifestNode};
use crate::api::Simulator;
use crate::text::{decimal, lemma_decimal_ascii, push_decimal, ascii_chars, ascii_string, append};
use crate::outside::{json_text_str, json_as_str, json_text_u64, json_as_u64};

verus! {

/// The upstream revision plans are made for.
pub fn revision() -> (r: String)
    ensures
        r@ == "4a44f73b41abc041f93d9b745677fa3210f65a84"@,
{
    "4a44f73b41abc041f93d9b745677fa3210f65a84".to_owned()
}

/// A character of a DNS label.
pub open spec fn dns_char(c: char) -> bool {
    ('a' <= c <= 'z') || ('0' <= c <= '9') || c == '-'
}

/// A DNS label: 1 to 63 lower-case letters, digits and inner hyphens.
pub open spec fn dns(s: Seq<char>) -> bool {
    &&& 1 <= s.len() <= 63
    &&& s[0] != '-' && s[s.len() - 1] != '-'
    &&& forall|i: int| 0 <= i < s.len() ==> dns_char(#[trigger] s[i])
}

pub fn dns_checked(s: &str) -> (r: bool)
    ensures
        r == dns(s@),
{
    let n = s.unicode_len();
    if n == 0 || n > 63 || s.get_char(0) == '-' || s.get_char(n - 1) == '-' {
        return false;
    }
    let mut i: usize = 0;
    while i < n
        invariant
            n == s@.len(),
            i <= n,
            forall|k: int| 0 <= k < i ==> dns_char(#[trigger] s@[k]),
        decreases n - i,
    {
        let c = s.get_char(i);
        if !(('a' <= c && c <= 'z') || ('0' <= c && c <= '9') || c == '-') {
            proof { assert(!dns_char(s@[i as int])); }
            return false;
        }
        i += 1;
    }
    true
}

/// A Kubernetes node name: at most 253 characters, dot-separated DNS labels.
pub open spec fn kube_node_ok(s: Seq<char>) -> bool {
    &&& 1 <= s.len() <= 253
    &&& forall|i: int| 0 <= i < s.len() ==> dns_char(#[trigger] s[i]) || s[i] == '.'
    &&& s[0] != '.' && s[0] != '-' && s[s.len() - 1] != '.' && s[s.len() - 1] != '-'
    &&& forall|i: int| 0 <= i < s.len() - 1 && #[trigger] s[i] == '.' ==> s[i + 1] != '.' && s[i + 1] != '-'
    &&& forall|i: int| 0 < i < s.len() && #[trigger] s[i] == '.' ==> s[i - 1] != '-'
    &&& forall|i: int| 0 <= i && i + 64 <= s.len() ==> #[trigger] dot_within(s, i)
}

/// Some dot among the 64 characters from `i`.
pub open spec fn dot_within(s: Seq<char>, i: int) -> bool {
    exists|k: int| i <= k < i + 64 && s[k] == '.'
}

pub fn kube_node_checked(s: &str) -> (r: bool)
    ensures
        r == kube_node_ok(s@),
{
    let n = s.unicode_len();
    if n == 0 || n > 253 {
        return false;
    }
    let first = s.get_char(0);
    let last = s.get_char(n - 1);
    if first == '.' || first == '-' || last == '.' || last == '-' {
        return false;
    }
    let mut run: usize = 0;
    let mut prev: char = ' ';
    let mut i: usize = 0;
    while i < n
        invariant
            n == s@.len(),
            1 <= n <= 253,
            s@[0] != '.' && s@[0] != '-' && s@[n - 1] != '.' && s@[n - 1] != '-',
            i <= n,
            i > 0 ==> prev == s@[i - 1],
            run <= 63,
            run <= i,
            forall|k: int| i - run <= k < i ==> s@[k] != '.',
            i - run > 0 ==> s@[i - run - 1] == '.',
            forall|k: int| 0 <= k < i ==> dns_char(#[trigger] s@[k]) || s@[k] == '.',
            forall|k: int| 0 <= k < i - 1 && #[trigger] s@[k] == '.' ==> s@[k + 1] != '.' && s@[k + 1] != '-',
            forall|k: int| 0 < k < i && #[trigger] s@[k] == '.' ==> s@[k - 1] != '-',
            forall|k: int| 0 <= k && k + 64 <= i ==> #[trigger] dot_within(s@, k),
        decreases n - i,
    {
        let c = s.get_char(i);
        if !(('a' <= c && c <= 'z') || ('0' <= c && c <= '9') || c == '-' || c == '.') {
            proof { assert(!(dns_char(s@[i as int]) || s@[i as int] == '.')); }
            return false;
        }
        if i > 0 && prev == '.' && (c == '.' || c == '-') {
            proof { assert(s@[i - 1] == '.'); }
            return false;
        }
        if i > 0 && c == '.' && prev == '-' {
            proof { assert(s@[i as int] == '.'); }
            return false;
        }
        if c == '.' {
            proof {
                assert forall|k: int| 0 <= k && k + 64 <= i + 1 implies #[trigger] dot_within(s@, k) by {
                    if k + 64 == i + 1 {
                        assert(s@[i as int] == '.');
                    }
                }
            }
            run = 0;
        } else {
            if run == 63 {
                proof {
                    let k = i - 63;
                    assert(!dot_within(s@, k)) by {
                        assert forall|j: int| k <= j < k + 64 implies s@[j] != '.' by {
                            if j < i {
                            } else {
                                assert(j == i);
                            }
                        }
                    }
                }
                return false;
            }
            proof {
                assert forall|k: int| 0 <= k && k + 64 <= i + 1 implies #[trigger] dot_within(s@, k) by {
                    if k + 64 == i + 1 {
                        assert(s@[i - run - 1] == '.');
                    }
                }
            }
            run += 1;
        }
        prev = c;
        i += 1;
    }
    true
}

/// Position of the first `c` in `s`, or -1.
pub open spec fn first_index(s: Seq<char>, c: char) -> int
    decreases s.len(),
{
    if s.len() == 0 {
        -1
    } else if s[0] == c {
        0
    } else {
        let r = first_index(s.drop_first(), c);
        if r < 0 { -1 } else { r + 1 }
    }
}

/// Position of the last `c` in `s`, or -1.
pub open spec fn last_index(s: Seq<char>, c: char) -> int
    decreases s.len(),
{
    if s.len() == 0 {
        -1
    } else if s[s.len() - 1] == c {
        s.len() - 1
    } else {
        last_index(s.drop_last(), c)
    }
}

proof fn lemma_first_index(s: Seq<char>, c: char, i: int)
    requires
        -1 <= i <= s.len(),
        i >= 0 ==> i < s.len() && s[i] == c,
        forall|j: int| 0 <= j < (if i < 0 { s.len() as int } else { i }) ==> s[j] != c,
    ensures
        first_index(s, c) == i,
    decreases s.len(),
{
    if s.len() > 0 && i != 0 {
        let t = s.drop_first();
        assert(s[0] != c);
        lemma_first_index(t, c, if i < 0 { -1 } else { i - 1 });
    }
}

proof fn lemma_last_index(s: Seq<char>, c: char, i: int)
    requires
        -1 <= i < s.len(),
        i >= 0 ==> s[i] == c,
        forall|j: int| i < j < s.len() ==> s[j] != c,
    ensures
        last_index(s, c) == i,
    decreases s.len(),
{
    if s.len() > 0 && i != s.len() - 1 {
        assert(s[s.len() - 1] != c);
        lemma_last_index(s.drop_last(), c, i);
    }
}

fn find_first(s: &str, c: char) -> (r: Option<usize>)
    ensures
        match r {
            Some(i) => i < s@.len() && i as int == first_index(s@, c),
            None => first_index(s@, c) == -1,
        },
{
    let n = s.unicode_len();
    let mut i: usize = 0;
    while i < n
        invariant
            n == s@.len(),
            i <= n,
            forall|j: int| 0 <= j < i ==> s@[j] != c,
        decreases n - i,
    {
        if s.get_char(i) == c {
            proof { lemma_first_index(s@, c, i as int); }
            return Some(i);
        }
        i += 1;
    }
    proof { lemma_first_index(s@, c, -1); }
    None
}

fn find_last(s: &str, c: char) -> (r: Option<usize>)
    ensures
        match r {
            Some(i) => i < s@.len() && i as int == last_index(s@, c),
            None => last_index(s@, c) == -1,
        },
{
    let n = s.unicode_len();
    let mut i: usize = n;
    while i > 0
        invariant
            n == s@.len(),
            i <= n,
            forall|j: int| i <= j < n ==> s@[j] != c,
        decreases i,
    {
        if s.get_char(i - 1) == c {
            proof { lemma_last_index(s@, c, i - 1); }
            return Some(i - 1);
        }
        i -= 1;
    }
    proof { lemma_last_index(s@, c, -1); }
    None
}

/// A lower-case hexadecimal digit.
pub open spec fn lower_hex(c: char) -> bool {
    ('0' <= c <= '9') || ('a' <= c <= 'f')
}

/// `sha256:` and 64 lower-case hexadecimal digits.
pub open spec fn digest_ok(d: Seq<char>) -> bool {
    &&& d.len() == 71
    &&& d.subrange(0, 7) == "sha256:"@
    &&& forall|i: int| 7 <= i < 71 ==> lower_hex(#[trigger] d[i])
}

fn digest_checked(d: &str) -> (r: bool)
    ensures
        r == digest_ok(d@),
{
    if d.unicode_len() != 71 || !str_eq(d.substring_char(0, 7), "sha256:") {
        return false;
    }
    let mut i: usize = 7;
    while i < 71
        invariant
            d@.len() == 71,
            7 <= i <= 71,
            forall|k: int| 7 <= k < i ==> lower_hex(#[trigger] d@[k]),
        decreases 71 - i,
    {
        let c = d.get_char(i);
        if !(('0' <= c && c <= '9') || ('a' <= c && c <= 'f')) {
            proof { assert(!lower_hex(d@[i as int])); }
            return false;
        }
        i += 1;
    }
    true
}

/// The image reference before the first `@`, and the digest after it if any.
pub open spec fn image_reference(image: Seq<char>) -> Seq<char> {
    let a = first_index(image, '@');
    if a < 0 { image } else { image.subrange(0, a) }
}

pub open spec fn image_digest(image: Seq<char>) -> Option<Seq<char>> {
    let a = first_index(image, '@');
    if a < 0 { None } else { Some(image.subrange(a + 1, image.len() as int)) }
}

/// The tag that names the pinned source revision.
pub open spec fn source_tag() -> Seq<char> {
    "simulator-"@ + "4a44f73b41abc041f93d9b745677fa3210f65a84"@.subrange(0, 12)
}

/// The image names a repository and the pinned source tag, and any digest is a
/// SHA-256 one.
pub open spec fn image_ok(image: Seq<char>) -> bool {
    let r = image_reference(image);
    let colon = last_index(r, ':');
    &&& match image_digest(image) {
        Some(d) => digest_ok(d),
        None => true,
    }
    &&& colon > 0
    &&& r.subrange(colon + 1, r.len() as int) == source_tag()
}

pub open spec fn image_repository(image: Seq<char>) -> Seq<char> {
    let r = image_reference(image);
    r.subrange(0, last_index(r, ':'))
}

/// The tag to deploy: the source tag, with the digest when pinned.
pub open spec fn image_tag(image: Seq<char>) -> Seq<char> {
    match image_digest(image) {
        Some(d) => source_tag() + "@"@ + d,
        None => source_tag(),
    }
}

/// Splits and checks an image reference; `(repository, tag, pinned)`.
fn parse_image(image: &str) -> (r: Result<(String, String, bool)>)
    ensures
        r is Ok <==> image_ok(image@),
        r is Err ==> r->Err_0 is Invalid,
        r matches Ok((repo, tag, pinned)) ==> repo@ == image_repository(image@) && tag@ == image_tag(image@)
            && pinned == (image_digest(image@) is Some),
{
    let n = image.unicode_len();
    let (reference, digest) = match find_first(image, '@') {
        Some(a) => (image.substring_char(0, a), Some(image.substring_char(a + 1, n))),
        None => (image, None),
    };
    proof {
        assert(reference@ == image_reference(image@));
    }
    if let Some(d) = digest {
        if !digest_checked(d) {
            return Err(invalid("image must use a SHA-256 OCI digest"));
        }
    }
    let colon = match find_last(reference, ':') {
        Some(c) => c,
        None => return Err(invalid("Mokka image needs an explicit source revision tag")),
    };
    let rev = revision();
    proof { reveal_strlit("4a44f73b41abc041f93d9b745677fa3210f65a84"); }
    let mut expected = "simulator-".to_owned();
    append(&mut expected, rev.as_str().substring_char(0, 12));
    let m = reference.unicode_len();
    let source = reference.substring_char(colon + 1, m);
    if colon == 0 || !str_eq(source, expected.as_str()) {
        return Err(invalid("Mokka image tag must identify the pinned source revision"));
    }
    let repository = reference.substring_char(0, colon).to_owned();
    let tag = match digest {
        Some(d) => {
            let mut t = source.to_owned();
            append(&mut t, "@");
            append(&mut t, d);
            t
        },
        None => source.to_owned(),
    };
    Ok((repository, tag, digest.is_some()))
}

/// Which upstream GPU profile a model node uses, the Kubernetes node it lands on,
/// and how many GPUs it exposes.
#[derive(Clone, Debug)]
pub struct NodeBinding {
    pub kubernetes_node: String,
    pub profile: String,
    pub gpu_count: usize,
}

/// A deployment request. `nodes` binds model node names; when empty, the
/// bindings come from the `mokka.profile`, `mokka.gpu_count` and
/// `kubernetes.node` labels of the topology's nodes.
#[derive(Clone, Debug)]
pub struct MokkaConfig {
    pub manifest: String,
    pub upstream: String,
    pub context: String,
    pub namespace: String,
    /// Built from the pinned upstream before the plan is applied.
    pub image: String,
    pub nodes: Vec<(String, NodeBinding)>,
}

/// What an upstream GPU profile offers: how many devices it lists (`None` when
/// it has no device list) and whether it has a system section.
#[derive(Clone, Debug)]
pub struct Profile {
    pub name: String,
    pub devices: Option<usize>,
    pub system: bool,
}

/// One Helm release: the mock for one model node on one Kubernetes node.
#[derive(Clone, Debug)]
pub struct Release {
    pub name: String,
    pub model_node: String,
    pub kubernetes_node: String,
    pub expected_gpus: usize,
    pub profile: String,
    pub repository: String,
    pub tag: String,
}

#[derive(Clone, Debug)]
pub struct MokkaPlan {
    pub scope: String,
    pub upstream_revision: String,
    pub image_pinned: bool,
    pub nccl_tested: bool,
    pub rdma_payload_tested: bool,
    pub context: String,
    pub namespace: String,
    pub releases: Vec<Release>,
}

/// A namespace of its own: a DNS label, not `default`, not a `kube-` one.
pub open spec fn namespace_ok(ns: Seq<char>) -> bool {
    &&& dns(ns)
    &&& ns != "default"@
    &&& !(ns.len() >= 5 && ns.subrange(0, 5) == "kube-"@)
}

/// An explicit context: not empty, on one line.
pub open spec fn context_ok(c: Seq<char>) -> bool {
    c.len() > 0 && forall|i: int| 0 <= i < c.len() ==> #[trigger] c[i] != '\n' && c[i] != '\r'
}

fn namespace_checked(ns: &str) -> (r: bool)
    ensures
        r == namespace_ok(ns@),
{
    proof {
        reveal_strlit("default");
        reveal_strlit("kube-");
    }
    if !dns_checked(ns) || str_eq(ns, "default") {
        return false;
    }
    !(ns.unicode_len() >= 5 && str_eq(ns.substring_char(0, 5), "kube-"))
}

fn context_checked(c: &str) -> (r: bool)
    ensures
        r == context_ok(c@),
{
    let n = c.unicode_len();
    if n == 0 {
        return false;
    }
    let mut i: usize = 0;
    while i < n
        invariant
            n == c@.len(),
            i <= n,
            forall|k: int| 0 <= k < i ==> #[trigger] c@[k] != '\n' && c@[k] != '\r',
        decreases n - i,
    {
        let x = c.get_char(i);
        if x == '\n' || x == '\r' {
            proof { assert(!(c@[i as int] != '\n' && c@[i as int] != '\r')); }
            return false;
        }
        i += 1;
    }
    true
}

/// The string a node's label holds, if the label is there and is a JSON string.
pub open spec fn label_str(n: ManifestNode, key: Seq<char>) -> Option<Seq<char>> {
    match pair_get(n.labels@, key) {
        Some(v) => json_text_str(v@),
        None => None,
    }
}

/// The unsigned integer a node's label holds, if any.
pub open spec fn label_u64(n: ManifestNode, key: Seq<char>) -> Option<u64> {
    match pair_get(n.labels@, key) {
        Some(v) => json_text_u64(v@),
        None => None,
    }
}

/// A node that asks for a GPU mock.
pub open spec fn profiled(e: (String, ManifestNode)) -> bool {
    pair_get(e.1.labels@, "mokka.profile"@) is Some
}

pub open spec fn profiled_fn() -> spec_fn((String, ManifestNode)) -> bool {
    |e: (String, ManifestNode)| profiled(e)
}

/// The nodes that ask for a GPU mock, in manifest order.
pub open spec fn labelled(m: Manifest) -> Seq<(String, ManifestNode)> {
    m.content.nodes@.filter(profiled_fn())
}

/// The node's labels name a profile, a GPU count and a Kubernetes node.
pub open spec fn labels_ok(e: (String, ManifestNode)) -> bool {
    &&& label_str(e.1, "mokka.profile"@) is Some
    &&& label_u64(e.1, "mokka.gpu_count"@) is Some
    &&& label_u64(e.1, "mokka.gpu_count"@)->0 <= usize::MAX
    &&& label_str(e.1, "kubernetes.node"@) is Some
}

/// `b` is the binding the labels of `e` declare.
pub open spec fn binding_from(e: (String, ManifestNode), b: (String, NodeBinding)) -> bool {
    &&& b.0@ == e.0@
    &&& label_str(e.1, "mokka.profile"@) == Some(b.1.profile@)
    &&& label_u64(e.1, "mokka.gpu_count"@) == Some(b.1.gpu_count as u64)
    &&& label_str(e.1, "kubernetes.node"@) == Some(b.1.kubernetes_node@)
}

/// `b` are the bindings of the configuration, or, when it has none, those the
/// topology's labels declare.
pub open spec fn bound(c: MokkaConfig, m: Manifest, b: Seq<(String, NodeBinding)>) -> bool {
    if c.nodes@.len() > 0 {
        b == c.nodes@
    } else {
        &&& b.len() == labelled(m).len()
        &&& forall|k: int| 0 <= k < b.len() ==> binding_from(labelled(m)[k], #[trigger] b[k])
    }
}

fn copy_binding(b: &(String, NodeBinding)) -> (r: (String, NodeBinding))
    ensures
        r == *b,
{
    (b.0.clone(), NodeBinding {
        kubernetes_node: b.1.kubernetes_node.clone(),
        profile: b.1.profile.clone(),
        gpu_count: b.1.gpu_count,
    })
}

fn label_text(n: &ManifestNode, key: &str) -> (r: Option<String>)
    ensures
        match r {
            Some(s) => label_str(*n, key@) == Some(s@),
            None => label_str(*n, key@) is None,
        },
{
    match pairs_get(&n.labels, key) {
        Some(v) => json_as_str(v),
        None => None,
    }
}

fn label_number(n: &ManifestNode, key: &str) -> (r: Option<u64>)
    ensures
        r == label_u64(*n, key@),
{
    match pairs_get(&n.labels, key) {
        Some(v) => json_as_u64(v),
        None => None,
    }
}

/// The node at `k`, profiled and the `x`-th profiled one before it, is an element
/// of `labelled`.
proof fn lemma_bad_labels(m: Manifest, k: int, x: int)
    requires
        0 <= k < m.content.nodes@.len(),
        profiled(m.content.nodes@[k]),
        x == m.content.nodes@.subrange(0, k).filter(profiled_fn()).len(),
        !labels_ok(m.content.nodes@[k]),
    ensures
        !(forall|j: int| 0 <= j < labelled(m).len() ==> labels_ok(#[trigger] labelled(m)[j])),
{
    let s = m.content.nodes@;
    let f = profiled_fn();
    assert(s.subrange(0, k + 1) =~= s.subrange(0, k).push(s[k]));
    crate::keyed::lemma_filter_push(s.subrange(0, k), f, s[k]);
    crate::keyed::lemma_filter_prefix(s, f, k + 1);
    assert(s.subrange(0, k + 1).filter(f)[x] == s[k]);
    assert(labelled(m)[x] == s[k]);
}

impl MokkaConfig {
    /// The bindings to deploy: the configured ones, or those the topology's
    /// node labels declare. A node with a `mokka.profile` label must carry a
    /// string profile, a GPU count and a Kubernetes node name.
    pub fn bindings(&self, manifest: &Manifest) -> (r: Result<Vec<(String, NodeBinding)>>)
        ensures
            self.nodes@.len() > 0 ==> r is Ok,
            self.nodes@.len() == 0 ==> (r is Ok <==> forall|k: int| 0 <= k < labelled(*manifest).len()
                ==> labels_ok(#[trigger] labelled(*manifest)[k])),
            r is Err ==> r->Err_0 is Invalid,
            r matches Ok(b) ==> bound(*self, *manifest, b@),
    {
        let mut out: Vec<(String, NodeBinding)> = Vec::new();
        if self.nodes.len() > 0 {
            let mut k: usize = 0;
            while k < self.nodes.len()
                invariant
                    k <= self.nodes@.len(),
                    out@ == self.nodes@.subrange(0, k as int),
                decreases self.nodes@.len() - k,
            {
                out.push(copy_binding(&self.nodes[k]));
                proof { assert(out@ =~= self.nodes@.subrange(0, k + 1)); }
                k += 1;
            }
            proof { assert(out@ =~= self.nodes@); }
            return Ok(out);
        }
        let nodes = &manifest.content.nodes;
        let ghost f = profiled_fn();
        let mut k: usize = 0;
        proof { assert(nodes@.subrange(0, 0).filter(f) =~= Seq::<(String, ManifestNode)>::empty()); }
        while k < nodes.len()
            invariant
                self.nodes@.len() == 0,
                nodes == &manifest.content.nodes,
                f == profiled_fn(),
                k <= nodes@.len(),
                out@.len() == nodes@.subrange(0, k as int).filter(f).len(),
                forall|x: int| 0 <= x < out@.len() ==> binding_from(nodes@.subrange(0, k as int).filter(f)[x], #[trigger] out@[x]),
                forall|x: int| 0 <= x < out@.len() ==> labels_ok(#[trigger] nodes@.subrange(0, k as int).filter(f)[x]),
            decreases nodes@.len() - k,
        {
            let entry = &nodes[k];
            proof {
                assert(nodes@.subrange(0, k + 1) =~= nodes@.subrange(0, k as int).push(nodes@[k as int]));
                crate::keyed::lemma_filter_push(nodes@.subrange(0, k as int), f, nodes@[k as int]);
                crate::keyed::lemma_filter_prefix(nodes@, f, k + 1);
            }
            if pairs_get(&entry.1.labels, "mokka.profile").is_some() {
                let profile = match label_text(&entry.1, "mokka.profile") {
                    Some(p) => p,
                    None => {
                        proof { lemma_bad_labels(*manifest, k as int, out@.len() as int); }
                        return Err(invalid("mokka.profile must be a string"));
                    },
                };
                let count = match label_number(&entry.1, "mokka.gpu_count") {
                    Some(c) if c <= usize::MAX as u64 => c as usize,
                    _ => {
                        proof { lemma_bad_labels(*manifest, k as int, out@.len() as int); }
                        return Err(invalid("mokka.gpu_count must be set in intended state"));
                    },
                };
                let kube = match label_text(&entry.1, "kubernetes.node") {
                    Some(n) => n,
                    None => {
                        proof { lemma_bad_labels(*manifest, k as int, out@.len() as int); }
                        return Err(invalid("kubernetes.node must be set in intended state"));
                    },
                };
                out.push((entry.0.clone(), NodeBinding { kubernetes_node: kube, profile, gpu_count: count }));
            }
            k += 1;
        }
        proof { assert(nodes@.subrange(0, k as int) =~= nodes@); }
        Ok(out)
    }
}

/// The first node of that name.
pub open spec fn manifest_node(nodes: Seq<(String, ManifestNode)>, name: Seq<char>) -> Option<ManifestNode>
    decreases nodes.len(),
{
    if nodes.len() == 0 {
        None
    } else if nodes[0].0@ == name {
        Some(nodes[0].1)
    } else {
        manifest_node(nodes.drop_first(), name)
    }
}

/// The first profile of that name.
pub open spec fn profile_of(ps: Seq<Profile>, name: Seq<char>) -> Option<Profile>
    decreases ps.len(),
{
    if ps.len() == 0 {
        None
    } else if ps[0].name@ == name {
        Some(ps[0])
    } else {
        profile_of(ps.drop_first(), name)
    }
}

pub open spec fn host_node(m: Manifest, name: Seq<char>) -> bool {
    match manifest_node(m.content.nodes@, name) {
        Some(n) => n.role == Role::Host,
        None => false,
    }
}

/// The profile exists, has a system section, and lists at least the GPUs asked for.
pub open spec fn profile_fits(ps: Seq<Profile>, b: NodeBinding) -> bool {
    match profile_of(ps, b.profile@) {
        Some(p) => p.system && match p.devices {
            Some(d) => 0 < b.gpu_count <= d,
            None => false,
        },
        None => false,
    }
}

pub open spec fn binding_ok(b: (String, NodeBinding), m: Manifest, ps: Seq<Profile>) -> bool {
    &&& host_node(m, b.0@)
    &&& kube_node_ok(b.1.kubernetes_node@)
    &&& dns(b.1.profile@)
    &&& profile_fits(ps, b.1)
}

/// Some binding, each of a host of the topology onto its own Kubernetes node,
/// with an upstream profile that has the GPUs.
pub open spec fn bindings_ok(b: Seq<(String, NodeBinding)>, m: Manifest, ps: Seq<Profile>) -> bool {
    &&& b.len() > 0
    &&& forall|k: int| 0 <= k < b.len() ==> binding_ok(#[trigger] b[k], m, ps)
    &&& forall|i: int, j: int| 0 <= i < j < b.len() ==> b[i].0@ != b[j].0@
    &&& forall|i: int, j: int| 0 <= i < j < b.len() ==> b[i].1.kubernetes_node@ != b[j].1.kubernetes_node@
}

/// How many bindings have a model node name ordered before `name`.
pub open spec fn binding_rank(b: Seq<(String, NodeBinding)>, name: Seq<char>) -> nat
    decreases b.len(),
{
    if b.len() == 0 {
        0
    } else {
        binding_rank(b.drop_last(), name) + if crate::infiniband::name_less(b.last().0@, name) { 1nat } else { 0nat }
    }
}

/// The release deploys binding `b` of `all` with the configured image; releases
/// are numbered in model node name order.
pub open spec fn release_for(r: Release, b: (String, NodeBinding), all: Seq<(String, NodeBinding)>, image: Seq<char>) -> bool {
    &&& r.name@ == "sim-gpu-"@ + ascii_chars(decimal(binding_rank(all, b.0@)))
    &&& r.model_node@ == b.0@ && r.kubernetes_node@ == b.1.kubernetes_node@
    &&& r.expected_gpus == b.1.gpu_count && r.profile@ == b.1.profile@
    &&& r.repository@ == image_repository(image) && r.tag@ == image_tag(image)
}

pub open spec fn plan_for(p: MokkaPlan, c: MokkaConfig, b: Seq<(String, NodeBinding)>) -> bool {
    &&& p.scope@ == "kubernetes-gpu-contracts"@
    &&& p.upstream_revision@ == "4a44f73b41abc041f93d9b745677fa3210f65a84"@
    &&& p.image_pinned == (image_digest(c.image@) is Some)
    &&& !p.nccl_tested && !p.rdma_payload_tested
    &&& p.context@ == c.context@ && p.namespace@ == c.namespace@
    &&& p.releases@.len() == b.len()
    &&& forall|k: int| 0 <= k < b.len() ==> release_for(#[trigger] p.releases@[k], b[k], b, c.image@)
}

/// Any two binding lists of one configuration agree in everything a check reads.
proof fn lemma_bound_unique(c: MokkaConfig, m: Manifest, b1: Seq<(String, NodeBinding)>, b2: Seq<(String, NodeBinding)>)
    requires
        bound(c, m, b1),
        bound(c, m, b2),
    ensures
        b1.len() == b2.len(),
        forall|k: int| 0 <= k < b1.len() ==> {
            &&& (#[trigger] b1[k]).0@ == b2[k].0@
            &&& b1[k].1.kubernetes_node@ == b2[k].1.kubernetes_node@
            &&& b1[k].1.profile@ == b2[k].1.profile@
            &&& b1[k].1.gpu_count == b2[k].1.gpu_count
        },
{
    if c.nodes@.len() == 0 {
        assert forall|k: int| 0 <= k < b1.len() implies {
            &&& (#[trigger] b1[k]).0@ == b2[k].0@
            &&& b1[k].1.kubernetes_node@ == b2[k].1.kubernetes_node@
            &&& b1[k].1.profile@ == b2[k].1.profile@
            &&& b1[k].1.gpu_count == b2[k].1.gpu_count
        } by {
            assert(binding_from(labelled(m)[k], b1[k]));
            assert(binding_from(labelled(m)[k], b2[k]));
        }
    }
}

proof fn lemma_bindings_ok_agree(c: MokkaConfig, m: Manifest, b1: Seq<(String, NodeBinding)>, b2: Seq<(String, NodeBinding)>, ps: Seq<Profile>)
    requires
        bound(c, m, b1),
        bound(c, m, b2),
    ensures
        bindings_ok(b1, m, ps) == bindings_ok(b2, m, ps),
{
    lemma_bound_unique(c, m, b1, b2);
    lemma_bound_unique(c, m, b2, b1);
    if bindings_ok(b1, m, ps) {
        assert forall|k: int| 0 <= k < b2.len() implies binding_ok(#[trigger] b2[k], m, ps) by {
            assert(binding_ok(b1[k], m, ps));
        }
        assert forall|i: int, j: int| 0 <= i < j < b2.len() implies b2[i].0@ != b2[j].0@ by {
            assert(b1[i].0@ == b2[i].0@ && b1[j].0@ == b2[j].0@);
        }
        assert forall|i: int, j: int| 0 <= i < j < b2.len() implies b2[i].1.kubernetes_node@ != b2[j].1.kubernetes_node@ by {
            assert(b1[i].0@ == b2[i].0@ && b1[j].0@ == b2[j].0@);
        }
    }
    if bindings_ok(b2, m, ps) {
        assert forall|k: int| 0 <= k < b1.len() implies binding_ok(#[trigger] b1[k], m, ps) by {
            assert(binding_ok(b2[k], m, ps));
        }
        assert forall|i: int, j: int| 0 <= i < j < b1.len() implies b1[i].0@ != b1[j].0@ by {
            assert(b2[i].0@ == b1[i].0@ && b2[j].0@ == b1[j].0@);
        }
        assert forall|i: int, j: int| 0 <= i < j < b1.len() implies b1[i].1.kubernetes_node@ != b1[j].1.kubernetes_node@ by {
            assert(b2[i].0@ == b1[i].0@ && b2[j].0@ == b1[j].0@);
        }
    }
}

fn node_lookup<'a>(nodes: &'a Vec<(String, ManifestNode)>, name: &str) -> (r: Option<&'a ManifestNode>)
    ensures
        match r {
            Some(n) => manifest_node(nodes@, name@) == Some(*n),
            None => manifest_node(nodes@, name@) is None,
        },
{
    let mut k: usize = 0;
    proof { assert(nodes@.subrange(0, nodes@.len() as int) =~= nodes@); }
    while k < nodes.len()
        invariant
            k <= nodes@.len(),
            manifest_node(nodes@, name@) == manifest_node(nodes@.subrange(k as int, nodes@.len() as int), name@),
        decreases nodes@.len() - k,
    {
        proof {
            let rest = nodes@.subrange(k as int, nodes@.len() as int);
            assert(rest.drop_first() =~= nodes@.subrange(k + 1, nodes@.len() as int));
            assert(rest[0] == nodes@[k as int]);
        }
        if str_eq(nodes[k].0.as_str(), name) {
            return Some(&nodes[k].1);
        }
        k += 1;
    }
    None
}

fn profile_lookup<'a>(ps: &'a Vec<Profile>, name: &str) -> (r: Option<&'a Profile>)
    ensures
        match r {
            Some(p) => profile_of(ps@, name@) == Some(*p),
            None => profile_of(ps@, name@) is None,
        },
{
    let mut k: usize = 0;
    proof { assert(ps@.subrange(0, ps@.len() as int) =~= ps@); }
    while k < ps.len()
        invariant
            k <= ps@.len(),
            profile_of(ps@, name@) == profile_of(ps@.subrange(k as int, ps@.len() as int), name@),
        decreases ps@.len() - k,
    {
        proof {
            let rest = ps@.subrange(k as int, ps@.len() as int);
            assert(rest.drop_first() =~= ps@.subrange(k + 1, ps@.len() as int));
            assert(rest[0] == ps@[k as int]);
        }
        if str_eq(ps[k].name.as_str(), name) {
            return Some(&ps[k]);
        }
        k += 1;
    }
    None
}

fn rank_of_binding(b: &Vec<(String, NodeBinding)>, name: &str) -> (r: usize)
    ensures
        r == binding_rank(b@, name@),
{
    let mut c: usize = 0;
    let mut k: usize = 0;
    while k < b.len()
        invariant
            k <= b@.len(),
            c == binding_rank(b@.subrange(0, k as int), name@),
            c <= k,
        decreases b@.len() - k,
    {
        proof { assert(b@.subrange(0, k + 1).drop_last() =~= b@.subrange(0, k as int)); }
        if crate::text::str_lt(b[k].0.as_str(), name) {
            c += 1;
        }
        k += 1;
    }
    proof { assert(b@.subrange(0, k as int) =~= b@); }
    c
}

/// Checks one binding against the topology and the profiles.
fn binding_checked(b: &(String, NodeBinding), manifest: &Manifest, profiles: &Vec<Profile>) -> (r: Result<()>)
    ensures
        r is Ok <==> binding_ok(*b, *manifest, profiles@),
        r is Err ==> r->Err_0 is Invalid,
{
    match node_lookup(&manifest.content.nodes, b.0.as_str()) {
        Some(n) => if n.role != Role::Host {
            return Err(invalid("Mokka cannot turn switches into GPU hosts"));
        },
        None => return Err(invalid("Mokka binding references unknown model node")),
    }
    if !kube_node_checked(b.1.kubernetes_node.as_str()) {
        return Err(invalid("invalid Kubernetes node name"));
    }
    if !dns_checked(b.1.profile.as_str()) {
        return Err(invalid("invalid Mokka profile name"));
    }
    let fits = match profile_lookup(profiles, b.1.profile.as_str()) {
        Some(p) => p.system && match p.devices {
            Some(d) => 0 < b.1.gpu_count && b.1.gpu_count <= d,
            None => false,
        },
        None => false,
    };
    if !fits {
        return Err(invalid("GPU count exceeds the upstream profile, or the profile is incomplete"));
    }
    Ok(())
}

impl MokkaConfig {
    /// Plans one release per binding, after checking the namespace, the context,
    /// the image, that the topology imports, and every binding.
    pub fn plan(&self, manifest: Manifest, profiles: &Vec<Profile>) -> (r: Result<MokkaPlan>)
        ensures
            !namespace_ok(self.namespace@) || !context_ok(self.context@) || !image_ok(self.image@)
                ==> r is Err && r->Err_0 is Invalid,
            self.nodes@.len() == 0 && !(forall|k: int| 0 <= k < labelled(manifest).len()
                ==> labels_ok(#[trigger] labelled(manifest)[k])) ==> r is Err,
            forall|b: Seq<(String, NodeBinding)>| bound(*self, manifest, b) && !bindings_ok(b, manifest, profiles@)
                ==> r is Err,
            r matches Ok(p) ==> {
                &&& namespace_ok(self.namespace@) && context_ok(self.context@) && image_ok(self.image@)
                &&& crate::manifest::json_format(manifest.format@)
                &&& exists|b: Seq<(String, NodeBinding)>| bound(*self, manifest, b) && bindings_ok(b, manifest, profiles@)
                    && plan_for(p, *self, b)
            },
    {
        if !namespace_checked(self.namespace.as_str()) {
            return Err(invalid("use a dedicated Mokka namespace"));
        }
        if !context_checked(self.context.as_str()) {
            return Err(invalid("explicit Kubernetes context required"));
        }
        let (repository, tag, pinned) = parse_image(self.image.as_str())?;
        if !crate::manifest::is_json_format(manifest.format.as_str()) {
            return Err(crate::model::unsupported("manifest format"));
        }
        let _ = Simulator::build(&manifest)?;
        let r = self.plan_checked(&manifest, profiles);
        proof {
            if r is Ok {
                let b0 = choose|b: Seq<(String, NodeBinding)>| bound(*self, manifest, b) && bindings_ok(b, manifest, profiles@);
                assert forall|x: Seq<(String, NodeBinding)>| bound(*self, manifest, x) implies bindings_ok(x, manifest, profiles@) by {
                    lemma_bindings_ok_agree(*self, manifest, x, b0, profiles@);
                }
            }
        }
        r
    }

    /// The plan for a manifest that builds: the settings checked again, then the
    /// bindings, each checked against the manifest and the profiles, one release
    /// per binding.
    pub fn plan_checked(&self, manifest: &Manifest, profiles: &Vec<Profile>) -> (r: Result<MokkaPlan>)
        ensures
            r is Ok <==> mokka_ready(*self, *manifest, profiles@),
            r is Err ==> r->Err_0 is Invalid || r->Err_0 is Unsupported,
            r matches Ok(p) ==> exists|b: Seq<(String, NodeBinding)>| bound(*self, *manifest, b)
                && bindings_ok(b, *manifest, profiles@) && plan_for(p, *self, b),
    {
        if !namespace_checked(self.namespace.as_str()) {
            return Err(invalid("use a dedicated Mokka namespace"));
        }
        if !context_checked(self.context.as_str()) {
            return Err(invalid("explicit Kubernetes context required"));
        }
        let (repository, tag, pinned) = parse_image(self.image.as_str())?;
        if !crate::manifest::is_json_format(manifest.format.as_str()) {
            return Err(crate::model::unsupported("manifest format"));
        }
        let b = match self.bindings(manifest) {
            Ok(b) => b,
            Err(e) => return Err(e),
        };
        proof {
            assert forall|x: Seq<(String, NodeBinding)>| bound(*self, *manifest, x)
                implies bindings_ok(x, *manifest, profiles@) == bindings_ok(b@, *manifest, profiles@) by {
                lemma_bindings_ok_agree(*self, *manifest, x, b@, profiles@);
            }
        }
        if b.len() == 0 {
            return Err(invalid("no Mokka GPU hosts selected"));
        }
        let mut releases: Vec<Release> = Vec::new();
        let mut k: usize = 0;
        while k < b.len()
            invariant
                k <= b@.len(),
                b@.len() > 0,
                repository@ == image_repository(self.image@),
                tag@ == image_tag(self.image@),
                releases@.len() == k,
                forall|x: int| 0 <= x < k ==> binding_ok(#[trigger] b@[x], *manifest, profiles@),
                forall|i: int, j: int| 0 <= i < j < k ==> b@[i].0@ != b@[j].0@,
                forall|i: int, j: int| 0 <= i < j < k ==> b@[i].1.kubernetes_node@ != b@[j].1.kubernetes_node@,
                forall|x: int| 0 <= x < k ==> release_for(#[trigger] releases@[x], b@[x], b@, self.image@),
                (exists|x: Seq<(String, NodeBinding)>| bound(*self, *manifest, x) && bindings_ok(x, *manifest, profiles@))
                    ==> bindings_ok(b@, *manifest, profiles@),
            decreases b@.len() - k,
        {
            let mut i: usize = 0;
            while i < k
                invariant
                    k < b@.len(),
                    i <= k,
                    forall|x: int| 0 <= x < i ==> b@[x].0@ != b@[k as int].0@,
                    forall|x: int| 0 <= x < i ==> b@[x].1.kubernetes_node@ != b@[k as int].1.kubernetes_node@,
                    (exists|x: Seq<(String, NodeBinding)>| bound(*self, *manifest, x) && bindings_ok(x, *manifest, profiles@))
                        ==> bindings_ok(b@, *manifest, profiles@),
                decreases k - i,
            {
                if str_eq(b[i].0.as_str(), b[k].0.as_str()) {
                    proof {
                        assert(!bindings_ok(b@, *manifest, profiles@));
                    }
                    return Err(invalid("a model node is bound twice"));
                }
                if str_eq(b[i].1.kubernetes_node.as_str(), b[k].1.kubernetes_node.as_str()) {
                    proof {
                        assert(!bindings_ok(b@, *manifest, profiles@));
                    }
                    return Err(invalid("two model nodes map to the same Kubernetes node"));
                }
                i += 1;
            }
            match binding_checked(&b[k], manifest, profiles) {
                Ok(()) => {},
                Err(e) => {
                    proof {
                        assert(!bindings_ok(b@, *manifest, profiles@));
                    }
                    return Err(e);
                },
            }
            let rank = rank_of_binding(&b, b[k].0.as_str());
            let mut name = "sim-gpu-".to_owned();
            assert(rank <= u64::MAX);
            let index = crate::text::decimal_string(rank as u64);
            append(&mut name, index.as_str());
            releases.push(Release {
                name,
                model_node: b[k].0.clone(),
                kubernetes_node: b[k].1.kubernetes_node.clone(),
                expected_gpus: b[k].1.gpu_count,
                profile: b[k].1.profile.clone(),
                repository: repository.clone(),
                tag: tag.clone(),
            });
            k += 1;
        }
        let plan = MokkaPlan {
            scope: "kubernetes-gpu-contracts".to_owned(),
            upstream_revision: revision(),
            image_pinned: pinned,
            nccl_tested: false,
            rdma_payload_tested: false,
            context: self.context.clone(),
            namespace: self.namespace.clone(),
            releases,
        };
        proof {
            assert(bound(*self, *manifest, b@));
            assert(plan_for(plan, *self, b@));
        }
        Ok(plan)
    }
}

/// The settings and bindings that `plan_checked` accepts: a dedicated namespace,
/// an explicit context, a pinnable image, a JSON manifest, complete labels where
/// the bindings come from labels, and bindings that check.
pub open spec fn mokka_ready(c: MokkaConfig, m: Manifest, ps: Seq<Profile>) -> bool {
    &&& namespace_ok(c.namespace@) && context_ok(c.context@) && image_ok(c.image@)
    &&& crate::manifest::json_format(m.format@)
    &&& (c.nodes@.len() == 0 ==> forall|k: int| 0 <= k < labelled(m).len() ==> labels_ok(#[trigger] labelled(m)[k]))
    &&& exists|b: Seq<(String, NodeBinding)>| bound(c, m, b) && bindings_ok(b, m, ps)
}

/// A resource map of a Kubernetes node's status: absent or `null`, an object of
/// resource names to values (`Some` when the value is a JSON string), or any
/// other JSON value.
#[derive(Clone, Debug)]
pub enum ResourceMap {
    Missing,
    Entries(Vec<(String, Option<String>)>),
    Malformed,
}

#[derive(Clone, Debug)]
pub struct NodeStatus {
    pub capacity: ResourceMap,
    pub allocatable: ResourceMap,
}

/// The resource is not an NVIDIA one, or its quantity is the string `0`.
pub open spec fn gpu_free_entry(e: (String, Option<String>)) -> bool {
    let n = e.0@;
    !(n.len() >= 11 && n.subrange(0, 11) == "nvidia.com/"@) || match e.1 {
        Some(v) => v@ == "0"@,
        None => false,
    }
}

pub open spec fn entries_gpu_free(e: Seq<(String, Option<String>)>) -> bool {
    forall|k: int| 0 <= k < e.len() ==> gpu_free_entry(#[trigger] e[k])
}

pub open spec fn gpu_free(m: ResourceMap, missing_ok: bool) -> bool {
    match m {
        ResourceMap::Missing => missing_ok,
        ResourceMap::Entries(e) => entries_gpu_free(e@),
        ResourceMap::Malformed => false,
    }
}

/// A node that offers no NVIDIA resource: its capacity is a map without any, and
/// its allocatable resources are absent or a map without any.
pub open spec fn no_gpu_capacity(n: NodeStatus) -> bool {
    gpu_free(n.capacity, false) && gpu_free(n.allocatable, true)
}

fn map_gpu_free(m: &ResourceMap, missing_ok: bool) -> (r: bool)
    ensures
        r == gpu_free(*m, missing_ok),
{
    proof {
        reveal_strlit("nvidia.com/");
        reveal_strlit("0");
    }
    match m {
        ResourceMap::Missing => missing_ok,
        ResourceMap::Malformed => false,
        ResourceMap::Entries(e) => {
            let mut k: usize = 0;
            while k < e.len()
                invariant
                    *m == ResourceMap::Entries(*e),
                    k <= e@.len(),
                    forall|x: int| 0 <= x < k ==> gpu_free_entry(#[trigger] e@[x]),
                decreases e@.len() - k,
            {
                let name = e[k].0.as_str();
                let vendor = name.unicode_len() >= 11 && str_eq(name.substring_char(0, 11), "nvidia.com/");
                let zero = match &e[k].1 {
                    Some(v) => str_eq(v.as_str(), "0"),
                    None => false,
                };
                if vendor && !zero {
                    proof {
                        assert(!gpu_free_entry(e@[k as int]));
                        assert(!entries_gpu_free(e@));
                    }
                    return false;
                }
                k += 1;
            }
            true
        },
    }
}

/// Whether a Kubernetes node offers no NVIDIA resource at all, in its capacity
/// or its allocatable resources; anything unreadable counts as offering some.
pub fn has_no_gpu_capacity(node: &NodeStatus) -> (r: bool)
    ensures
        r == no_gpu_capacity(*node),
{
    map_gpu_free(&node.capacity, false) && map_gpu_free(&node.allocatable, true)
}

} // verus!
