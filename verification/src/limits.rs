//! Per-simulation retention budgets.
use vstd::prelude::*;
use crate::model::{Result, Error};

verus! {

#[derive(Clone, Copy, Debug, PartialEq, Eq, Structural)]
pub struct Limits {
    pub interfaces: usize,
    pub links: usize,
    pub services: usize,
    pub instructions: usize,
    pub checkpoints: usize,
    pub data_bytes: usize,
    pub checkpoint_bytes: usize,
}

/// Counts of what a simulation retains.
#[derive(Clone, Copy, Debug, PartialEq, Eq, Structural)]
pub struct Usage {
    pub interfaces: usize,
    pub links: usize,
    pub services: usize,
    pub instructions: usize,
    pub checkpoints: usize,
}

/// `Ok` exactly when `used + added` stays within `limit`.
pub fn capacity(label: &str, used: usize, added: usize, limit: usize) -> (r: Result<()>)
    ensures
        r is Ok <==> used + added <= limit,
        r is Err ==> r->Err_0 is Conflict,
{
    if added > limit || used > limit - added {
        return Err(Error::Conflict(label.to_owned()));
    }
    Ok(())
}

} // verus!
