//! The decisions of a bounded subprocess log: how much of each chunk read from a
//! child to keep, and when to write the truncation marker. Reading and writing
//! are the caller's business; it drains the child to the end either way.
use vstd::prelude::*;

verus! {

/// Bytes a log keeps by default: 16 MiB.
pub fn limit() -> (r: usize)
    ensures
        r == 16777216,
{
    16 * 1024 * 1024
}

/// The line written once when output is cut off.
pub fn marker() -> (r: Vec<u8>)
    ensures
        r@ == marker_bytes(),
{
    let text = "\n[simulator: log truncated at 16 MiB; remaining bytes discarded]\n";
    let b = text.as_bytes();
    let mut v: Vec<u8> = Vec::new();
    let mut k: usize = 0;
    while k < b.len()
        invariant
            b@ == marker_bytes(),
            k <= b@.len(),
            v@ == b@.subrange(0, k as int),
        decreases b@.len() - k,
    {
        v.push(b[k]);
        proof { assert(v@ =~= b@.subrange(0, k + 1)); }
        k += 1;
    }
    proof { assert(v@ =~= b@); }
    v
}

/// The marker's bytes.
pub open spec fn marker_bytes() -> Seq<u8> {
    crate::text::utf8("\n[simulator: log truncated at 16 MiB; remaining bytes discarded]\n"@)
}

/// Length of the marker in bytes.
pub open spec fn marker_len() -> nat {
    65
}

proof fn lemma_marker_len()
    ensures
        marker_bytes().len() == marker_len(),
{
    reveal_strlit("\n[simulator: log truncated at 16 MiB; remaining bytes discarded]\n");
    vstd::utf8::is_ascii_chars_encode_utf8("\n[simulator: log truncated at 16 MiB; remaining bytes discarded]\n"@);
}

fn marker_length() -> (r: usize)
    ensures
        r == marker_len(),
{
    proof { lemma_marker_len(); }
    marker().len()
}

/// How much has been kept, and whether the marker has been written.
#[derive(Clone, Copy, Debug)]
pub struct LogState {
    pub retained: usize,
    pub truncated: bool,
}

/// What to do with one chunk: keep its first `keep` bytes, then write the
/// marker if `marker`.
#[derive(Clone, Copy, Debug)]
pub struct LogStep {
    pub keep: usize,
    pub marker: bool,
}

/// Bytes in the log file in state `s`.
pub open spec fn file_len(s: LogState) -> int {
    s.retained + if s.truncated { marker_len() as int } else { 0 }
}

/// Bytes the log may keep besides the marker.
pub open spec fn room(limit: nat, retained: nat) -> int {
    let budget = if limit >= marker_len() { limit - marker_len() } else { 0 };
    if budget >= retained { budget - retained } else { 0 }
}

/// A state reachable under `limit`: what is kept fits beside the marker, and
/// once the marker is written nothing more fits.
pub open spec fn bounded(s: LogState, limit: nat) -> bool {
    &&& limit >= marker_len()
    &&& s.retained <= limit - marker_len()
    &&& s.truncated ==> s.retained == limit - marker_len()
}

/// The decision for a chunk of `count` bytes. A log never grows past its limit:
/// from a bounded state every chunk leads to a bounded state, the file stays
/// within the limit, and after the marker nothing more is kept or marked.
pub fn step(s: LogState, count: usize, limit: usize) -> (r: (LogState, LogStep))
    ensures
        r.1.keep == (if count <= room(limit as nat, s.retained as nat) { count as int } else { room(limit as nat, s.retained as nat) }),
        r.1.marker == (r.1.keep < count && !s.truncated),
        r.0.retained == s.retained + r.1.keep,
        r.0.truncated == (s.truncated || r.1.marker),
        bounded(s, limit as nat) ==> bounded(r.0, limit as nat) && file_len(r.0) <= limit,
        bounded(s, limit as nat) && s.truncated ==> r.1.keep == 0 && !r.1.marker,
{
    let m = marker_length();
    let room = limit.saturating_sub(m).saturating_sub(s.retained);
    let keep = if count < room { count } else { room };
    let marker = keep < count && !s.truncated;
    (LogState { retained: s.retained + keep, truncated: s.truncated || marker }, LogStep { keep, marker })
}

} // verus!
