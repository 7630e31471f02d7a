//! The start message a native worker process receives for one NCCL rank, and the
//! check it applies before touching a device. Buffers are described by their
//! length and whether all elements are finite; the values stay with the worker.
use vstd::prelude::*;
use crate::model::{Error, Result};
use crate::collective::{Layout, shape, shape_ok, output_count};

verus! {

/// What one rank is asked to do.
#[derive(Clone, Debug)]
pub struct Start {
    pub unique_id: Vec<u8>,
    pub operation: Layout,
    pub input_len: usize,
    pub input_finite: bool,
    pub output_count: usize,
}

/// The output count an operation yields from `input_len` elements on `nranks`
/// ranks, when the operation is possible.
pub open spec fn expected_output(op: Layout, input_len: nat, nranks: nat) -> Option<int> {
    match op {
        Layout::AllReduce { .. } => Some(input_len as int),
        Layout::Broadcast { root } => if root < nranks { Some(input_len as int) } else { None },
        Layout::AllGather => if input_len * nranks <= usize::MAX { Some((input_len * nranks) as int) } else { None },
        Layout::ReduceScatter { .. } => if input_len % nranks == 0 { Some((input_len / nranks) as int) } else { None },
    }
}

/// A start message a worker accepts: at most 16 MiB of finite input, at most
/// 64 MiB of output over all ranks, and an output count the operation yields.
pub open spec fn start_ok(s: Start, nranks: nat) -> bool {
    &&& s.input_len <= 2097152 && s.input_finite
    &&& s.output_count <= 8388608nat / nranks
    &&& expected_output(s.operation, s.input_len as nat, nranks) == Some(s.output_count as int)
}

fn worker_error(msg: &str) -> (e: Error)
    ensures
        e is Invalid,
        e->Invalid_0@ == msg@,
{
    Error::Invalid(msg.to_owned())
}

impl Start {
    /// Checks the message against the number of ranks.
    pub fn validate(&self, nranks: usize) -> (r: Result<()>)
        requires
            nranks > 0,
        ensures
            r is Ok <==> start_ok(*self, nranks as nat),
            r is Err ==> r->Err_0 is Invalid,
    {
        if self.input_len > 16 * 1024 * 1024 / 8 || !self.input_finite {
            return Err(worker_error("invalid worker input"));
        }
        if self.output_count > 64 * 1024 * 1024 / 8 / nranks {
            return Err(worker_error("worker output too large"));
        }
        let expected = match self.operation {
            Layout::AllReduce { .. } => self.input_len,
            Layout::Broadcast { root } => {
                if root >= nranks {
                    return Err(worker_error("invalid root"));
                }
                self.input_len
            },
            Layout::AllGather => match self.input_len.checked_mul(nranks) {
                Some(n) => n,
                None => return Err(worker_error("count overflow")),
            },
            Layout::ReduceScatter { .. } => {
                if self.input_len % nranks != 0 {
                    return Err(worker_error("uneven reduce-scatter"));
                }
                self.input_len / nranks
            },
        };
        if self.output_count != expected {
            return Err(worker_error("worker output shape mismatch"));
        }
        Ok(())
    }

    /// The message for `rank` of a request over `nranks` ranks. A broadcast rank
    /// other than the root starts from zeros of the root's length.
    pub fn for_rank(layout: &Layout, lengths: &Vec<usize>, finite: &Vec<bool>, nranks: usize, rank: usize, id: &Vec<u8>)
        -> (r: Result<Start>)
        requires
            lengths@.len() == finite@.len(),
            *layout is Broadcast ==> lengths@.len() == 1,
            shape_ok(*layout, lengths@, finite@, nranks as nat) && !(*layout is Broadcast) ==> rank < nranks,
        ensures
            r is Ok <==> shape_ok(*layout, lengths@, finite@, nranks as nat),
            r is Err ==> r->Err_0 is Invalid,
            r matches Ok(s) ==> {
                &&& s.unique_id@ == id@ && s.operation == *layout
                &&& s.output_count == output_count(*layout, lengths@, nranks as nat)
                &&& match *layout {
                    Layout::Broadcast { root } => s.input_len == lengths@[0]
                        && s.input_finite == (if root == rank { finite@[0] } else { true }),
                    _ => s.input_len == lengths@[rank as int] && s.input_finite == finite@[rank as int],
                }
                &&& start_ok(s, nranks as nat)
            },
    {
        let (_, output) = shape(layout, lengths, finite, nranks)?;
        let (input_len, input_finite) = match layout {
            Layout::Broadcast { root } => (lengths[0], if *root == rank { finite[0] } else { true }),
            _ => (lengths[rank], finite[rank]),
        };
        let mut unique_id: Vec<u8> = Vec::new();
        let mut k: usize = 0;
        while k < id.len()
            invariant
                k <= id@.len(),
                unique_id@ == id@.subrange(0, k as int),
            decreases id@.len() - k,
        {
            unique_id.push(id[k]);
            proof { assert(unique_id@ =~= id@.subrange(0, k + 1)); }
            k += 1;
        }
        proof {
            assert(unique_id@ =~= id@);
            let n = nranks as int;
            let o = output as int;
            assert(o * n * 8 <= 64 * 1024 * 1024);
            assert(o <= 8388608int / n) by (nonlinear_arith)
                requires o * n * 8 <= 64 * 1024 * 1024, n >= 1, o >= 0;
            match *layout {
                Layout::AllGather => {
                    assert(lengths@[rank as int] == lengths@[0]);
                },
                Layout::ReduceScatter { .. } => {
                    assert(lengths@[rank as int] == lengths@[0]);
                },
                Layout::AllReduce { .. } => {
                    assert(lengths@[rank as int] == lengths@[0]);
                },
                _ => {},
            }
        }
        Ok(Start { unique_id, operation: *layout, input_len, input_finite, output_count: output })
    }
}

} // verus!
