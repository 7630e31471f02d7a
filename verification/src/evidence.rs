//! Observable file identity: a path and the SHA-256 of the contents found there.
//! This is not remote attestation of a trusted host. Reading files and process
//! mappings is the caller's business.
use vstd::prelude::*;
use crate::model::{Error, Result};
use crate::keyed::str_eq;
use crate::text::{hex2, push_hex2, ascii_chars, ascii_string};

verus! {

/// The SHA-256 digest of a byte string, as `sha2` computes it.
pub uninterp spec fn sha256_of(data: Seq<u8>) -> Seq<u8>;

/// `sha2::Sha256::digest` of `data`: the 32 digest bytes. The hash function is
/// `sha2`'s and is named here, not spelled out; the length is that of SHA-256.
#[verifier::external_body]
fn sha256(data: &[u8]) -> (r: Vec<u8>)
    ensures
        r@ == sha256_of(data@),
        r@.len() == 32,
{
    <sha2::Sha256 as sha2::Digest>::digest(data).to_vec()
}

/// Lower-case hexadecimal digits of each byte, in order.
pub open spec fn hex_bytes(b: Seq<u8>) -> Seq<u8>
    decreases b.len(),
{
    if b.len() == 0 { Seq::empty() } else { hex_bytes(b.drop_last()) + hex2(b.last()) }
}

proof fn lemma_hex_bytes_ascii(b: Seq<u8>)
    ensures
        crate::text::all_ascii(hex_bytes(b)),
        hex_bytes(b).len() == 2 * b.len(),
    decreases b.len(),
{
    if b.len() > 0 {
        lemma_hex_bytes_ascii(b.drop_last());
    }
}

/// The lower-case hexadecimal text of `b`.
pub fn hex_text(b: &Vec<u8>) -> (r: String)
    ensures
        r@ == ascii_chars(hex_bytes(b@)),
{
    let mut out: Vec<u8> = Vec::new();
    let mut k: usize = 0;
    while k < b.len()
        invariant
            k <= b@.len(),
            out@ == hex_bytes(b@.subrange(0, k as int)),
        decreases b@.len() - k,
    {
        push_hex2(&mut out, b[k]);
        proof { assert(b@.subrange(0, k + 1).drop_last() =~= b@.subrange(0, k as int)); }
        k += 1;
    }
    proof {
        assert(b@.subrange(0, k as int) =~= b@);
        lemma_hex_bytes_ascii(b@);
    }
    ascii_string(out)
}

/// A file as found: its canonical path and the lower-case hexadecimal SHA-256 of
/// its contents.
#[derive(Clone, Debug)]
pub struct FileIdentity {
    pub path: String,
    pub sha256: String,
}

/// The hexadecimal digest text of some contents.
pub open spec fn digest_text(content: Seq<u8>) -> Seq<char> {
    ascii_chars(hex_bytes(sha256_of(content)))
}

impl FileIdentity {
    /// The identity of the regular file at the canonical `path` whose contents
    /// the caller read as `content`.
    pub fn of(path: String, content: &[u8]) -> (r: FileIdentity)
        ensures
            r.path@ == path@,
            r.sha256@ == digest_text(content@),
            r.sha256@.len() == 64,
    {
        let digest = sha256(content);
        proof { lemma_hex_bytes_ascii(digest@); }
        FileIdentity { path, sha256: hex_text(&digest) }
    }

    /// Checks that the file still has this identity, given what is found there now.
    pub fn verify(&self, now: &FileIdentity) -> (r: Result<()>)
        ensures
            r is Ok <==> self.path@ == now.path@ && self.sha256@ == now.sha256@,
            r is Err ==> r->Err_0 is Conflict && r->Err_0->Conflict_0@ == identity_message(*self),
    {
        if !str_eq(self.path.as_str(), now.path.as_str()) || !str_eq(self.sha256.as_str(), now.sha256.as_str()) {
            let mut msg = "file identity differs: ".to_owned();
            crate::text::append(&mut msg, self.path.as_str());
            return Err(Error::Conflict(msg));
        }
        Ok(())
    }
}

/// The message of the error for a library whose identity differs.
pub open spec fn identity_message(f: FileIdentity) -> Seq<char> {
    "file identity differs: "@ + f.path@
}

/// The NCCL and CUDA libraries a native run is pinned to.
#[derive(Clone, Debug)]
pub struct NcclLibraries {
    pub nccl: FileIdentity,
    pub cuda: FileIdentity,
}

impl NcclLibraries {
    /// Checks both libraries against what is found at their paths now.
    pub fn verify(&self, nccl_now: &FileIdentity, cuda_now: &FileIdentity) -> (r: Result<()>)
        ensures
            r is Ok <==> self.nccl.path@ == nccl_now.path@ && self.nccl.sha256@ == nccl_now.sha256@
                && self.cuda.path@ == cuda_now.path@ && self.cuda.sha256@ == cuda_now.sha256@,
            r is Err ==> r->Err_0 is Conflict,
            !(self.nccl.path@ == nccl_now.path@ && self.nccl.sha256@ == nccl_now.sha256@)
                ==> r is Err && r->Err_0->Conflict_0@ == identity_message(self.nccl),
            self.nccl.path@ == nccl_now.path@ && self.nccl.sha256@ == nccl_now.sha256@
                && !(self.cuda.path@ == cuda_now.path@ && self.cuda.sha256@ == cuda_now.sha256@)
                ==> r is Err && r->Err_0->Conflict_0@ == identity_message(self.cuda),
    {
        self.nccl.verify(nccl_now)?;
        self.cuda.verify(cuda_now)?;
        Ok(())
    }
}

/// White space as `char::is_whitespace` knows it.
pub open spec fn is_ws(c: char) -> bool {
    ||| c == ' ' || c == '\t' || c == '\n' || c == '\x0B' || c == '\x0C' || c == '\r'
    ||| c == '\u{85}' || c == '\u{A0}' || c == '\u{1680}'
    ||| ('\u{2000}' <= c && c <= '\u{200A}')
    ||| c == '\u{2028}' || c == '\u{2029}' || c == '\u{202F}' || c == '\u{205F}' || c == '\u{3000}'
}

fn ws_checked(c: char) -> (r: bool)
    ensures
        r == is_ws(c),
{
    c == ' ' || c == '\t' || c == '\n' || c == '\x0B' || c == '\x0C' || c == '\r' || c == '\u{85}' || c == '\u{A0}'
        || c == '\u{1680}' || ('\u{2000}' <= c && c <= '\u{200A}') || c == '\u{2028}' || c == '\u{2029}'
        || c == '\u{202F}' || c == '\u{205F}' || c == '\u{3000}'
}

/// The characters of `s` up to its first white space.
pub open spec fn first_word(s: Seq<char>) -> Seq<char>
    decreases s.len(),
{
    if s.len() == 0 || is_ws(s[0]) { Seq::empty() } else { seq![s[0]] + first_word(s.drop_first()) }
}

pub proof fn lemma_first_word_len(s: Seq<char>)
    ensures
        first_word(s).len() <= s.len(),
        s.len() > 0 && !is_ws(s[0]) ==> first_word(s).len() >= 1,
    decreases s.len(),
{
    if s.len() > 0 && !is_ws(s[0]) {
        lemma_first_word_len(s.drop_first());
    }
}

/// The white-space separated words of `s`, as `str::split_whitespace` yields them.
pub open spec fn words(s: Seq<char>) -> Seq<Seq<char>>
    decreases s.len(),
{
    if s.len() == 0 {
        Seq::empty()
    } else if is_ws(s[0]) {
        words(s.drop_first())
    } else {
        proof { lemma_first_word_len(s); }
        seq![first_word(s)] + words(s.subrange(first_word(s).len() as int, s.len() as int))
    }
}

/// Words joined by single spaces.
pub open spec fn join(w: Seq<Seq<char>>) -> Seq<char>
    decreases w.len(),
{
    if w.len() == 0 {
        Seq::empty()
    } else if w.len() == 1 {
        w[0]
    } else {
        join(w.drop_last()) + seq![' '] + w.last()
    }
}

/// The words after the first five.
pub open spec fn after_five(w: Seq<Seq<char>>) -> Seq<Seq<char>> {
    if w.len() <= 5 { Seq::empty() } else { w.subrange(5, w.len() as int) }
}

/// `[a, b)` is a line of `s`, as `str::lines` yields them: between line feeds,
/// with no empty line after a final line feed.
pub open spec fn is_line(s: Seq<char>, a: int, b: int) -> bool {
    &&& 0 <= a <= b <= s.len() && a < s.len()
    &&& a == 0 || s[a - 1] == '\n'
    &&& b == s.len() || s[b] == '\n'
    &&& forall|k: int| a <= k < b ==> s[k] != '\n'
}

/// Some line of a process map, past its address, permissions, offset, device and
/// inode fields, names exactly `path`.
pub open spec fn maps_path(maps: Seq<char>, path: Seq<char>) -> bool {
    exists|a: int, b: int| is_line(maps, a, b) && #[trigger] join(after_five(words(maps.subrange(a, b)))) == path
}

proof fn lemma_first_word_at(line: Seq<char>, i: int, j: int)
    requires
        0 <= i < j <= line.len(),
        forall|k: int| i <= k < j ==> !is_ws(line[k]),
        j == line.len() || is_ws(line[j]),
    ensures
        first_word(line.subrange(i, line.len() as int)) == line.subrange(i, j),
    decreases j - i,
{
    let s = line.subrange(i, line.len() as int);
    assert(s.drop_first() =~= line.subrange(i + 1, line.len() as int));
    assert(s[0] == line[i]);
    assert(!is_ws(s[0]));
    assert(first_word(s) == seq![s[0]] + first_word(s.drop_first()));
    if i + 1 < j {
        lemma_first_word_at(line, i + 1, j);
        assert(line.subrange(i, j) =~= seq![line[i]] + line.subrange(i + 1, j));
    } else {
        assert(line.subrange(i, j) =~= seq![line[i]]);
        if j < line.len() {
            assert(s.drop_first()[0] == line[j]);
        } else {
            assert(s.drop_first().len() == 0);
        }
    }
}

/// The text of a line after its first five words.
fn line_tail(line: &str) -> (r: String)
    ensures
        r@ == join(after_five(words(line@))),
{
    let n = line.unicode_len();
    let ghost l = line@;
    let ghost mut seen: Seq<Seq<char>> = Seq::empty();
    let mut count: usize = 0;
    let mut out = String::new();
    let mut i: usize = 0;
    proof { assert(l.subrange(0, n as int) =~= l); }
    while i < n
        invariant
            l == line@,
            n == l.len(),
            i <= n,
            count <= 6,
            count == seen.len() || (count == 6 && seen.len() >= 6),
            words(l) == seen + words(l.subrange(i as int, n as int)),
            out@ == join(after_five(seen)),
        decreases n - i,
    {
        let c = line.get_char(i);
        let ghost rest = l.subrange(i as int, n as int);
        proof { assert(rest[0] == c); }
        if ws_checked(c) {
            proof { assert(rest.drop_first() =~= l.subrange(i + 1, n as int)); }
            i += 1;
        } else {
            let mut j: usize = i + 1;
            while j < n && !ws_checked(line.get_char(j))
                invariant
                    l == line@,
                    n == l.len(),
                    i < j <= n,
                    forall|k: int| i <= k < j ==> !is_ws(l[k]),
                    count <= 6,
                    count == seen.len() || (count == 6 && seen.len() >= 6),
                decreases n - j,
            {
                j += 1;
            }
            let word = line.substring_char(i, j);
            proof {
                lemma_first_word_at(l, i as int, j as int);
                assert(first_word(rest) == word@);
                assert(rest.subrange(word@.len() as int, rest.len() as int) =~= l.subrange(j as int, n as int));
                assert(words(rest) == seq![word@] + words(l.subrange(j as int, n as int)));
                let next = seen.push(word@);
                assert(seen + words(rest) =~= next + words(l.subrange(j as int, n as int)));
                if seen.len() < 5 {
                    assert(after_five(next) =~= Seq::<Seq<char>>::empty());
                } else if seen.len() == 5 {
                    assert(after_five(next) =~= seq![word@]);
                } else {
                    assert(after_five(next).drop_last() =~= after_five(seen));
                    assert(after_five(next).last() == word@);
                }
            }
            proof { reveal_strlit(" "); }
            if count == 5 {
                out = word.to_owned();
            } else if count > 5 {
                crate::text::append(&mut out, " ");
                crate::text::append(&mut out, word);
            }
            if count < 6 {
                count += 1;
            }
            proof { seen = seen.push(word@); }
            i = j;
        }
    }
    proof {
        assert(l.subrange(n as int, n as int) =~= Seq::<char>::empty());
        assert(seen + Seq::<Seq<char>>::empty() =~= seen);
    }
    out
}

/// Whether some line of the process map `maps` names exactly `path`.
pub fn mapped(maps: &str, path: &str) -> (r: bool)
    ensures
        r == maps_path(maps@, path@),
{
    let n = maps.unicode_len();
    let ghost m = maps@;
    let mut start: usize = 0;
    while start < n
        invariant
            m == maps@,
            n == m.len(),
            start <= n,
            start == 0 || m[start - 1] == '\n',
            forall|a: int, b: int| is_line(m, a, b) && a < start
                ==> #[trigger] join(after_five(words(m.subrange(a, b)))) != path@,
        decreases n - start,
    {
        let mut end: usize = start;
        while end < n && maps.get_char(end) != '\n'
            invariant
                m == maps@,
                n == m.len(),
                start <= end <= n,
                forall|k: int| start <= k < end ==> m[k] != '\n',
            decreases n - end,
        {
            end += 1;
        }
        let tail = line_tail(maps.substring_char(start, end));
        if crate::keyed::str_eq(tail.as_str(), path) {
            proof { assert(is_line(m, start as int, end as int)); }
            return true;
        }
        if end == n {
            proof {
                assert forall|a: int, b: int| is_line(m, a, b)
                    implies #[trigger] join(after_five(words(m.subrange(a, b)))) != path@ by {
                    if a >= start {
                        if a > start {
                            assert(m[a - 1] != '\n');
                        }
                        assert(a == start);
                        if b < end {
                            assert(m[b] != '\n');
                        }
                        assert(b == end);
                    }
                }
            }
            return false;
        }
        proof {
            assert forall|a: int, b: int| is_line(m, a, b) && a < end + 1
                implies #[trigger] join(after_five(words(m.subrange(a, b)))) != path@ by {
                if a >= start {
                    if a > start {
                        assert(m[a - 1] != '\n');
                    }
                    assert(a == start);
                    if b < end {
                        assert(m[b] != '\n');
                    }
                    if b > end {
                        assert(m[end as int] != '\n');
                    }
                    assert(b == end);
                }
            }
        }
        start = end + 1;
    }
    proof {
        assert forall|a: int, b: int| is_line(m, a, b)
            implies #[trigger] join(after_five(words(m.subrange(a, b)))) != path@ by {
        }
    }
    false
}

impl NcclLibraries {
    /// Checks that the process whose map is `maps` has the NCCL library, and the
    /// CUDA library when `include_cuda`, mapped at their recorded paths, and that
    /// each still has its identity.
    pub fn verify_mapped(&self, maps: &str, include_cuda: bool, nccl_now: &FileIdentity, cuda_now: &FileIdentity)
        -> (r: Result<()>)
        ensures
            r is Ok <==> maps_path(maps@, self.nccl.path@) && self.nccl.path@ == nccl_now.path@
                && self.nccl.sha256@ == nccl_now.sha256@
                && (include_cuda ==> maps_path(maps@, self.cuda.path@) && self.cuda.path@ == cuda_now.path@
                    && self.cuda.sha256@ == cuda_now.sha256@),
            r is Err ==> r->Err_0 is Conflict,
    {
        if !mapped(maps, self.nccl.path.as_str()) {
            let mut msg = "expected library is not mapped: ".to_owned();
            crate::text::append(&mut msg, self.nccl.path.as_str());
            return Err(Error::Conflict(msg));
        }
        self.nccl.verify(nccl_now)?;
        if include_cuda {
            if !mapped(maps, self.cuda.path.as_str()) {
                let mut msg = "expected library is not mapped: ".to_owned();
                crate::text::append(&mut msg, self.cuda.path.as_str());
                return Err(Error::Conflict(msg));
            }
            self.cuda.verify(cuda_now)?;
        }
        Ok(())
    }
}

} // verus!
