//! Feasibility of a set of memory reservations under a fixed budget.
//!
//! Each [`Job`] holds `mem_usage` units of memory on the half-open interval
//! `[start, start + duration)`. [`can_process`] answers whether the combined
//! usage ever exceeds the budget, by a sweep over start and end events.
use vstd::prelude::*;

pub mod laws;
pub mod model;
pub mod sweep;

pub use sweep::{can_process, try_can_process, InvalidInput};

verus! {

/// A reservation of `mem_usage` units of memory during `[start, start + duration)`.
#[derive(Debug, Clone, Copy)]
pub struct Job {
    pub mem_usage: i64,
    pub start: u64,
    pub duration: u64,
}

/// An upper bound on the number of jobs in one check. A `Vec<Job>` can never
/// reach it on a 64-bit target, since its buffer is limited to `isize::MAX` bytes.
pub const MAX_JOBS: u64 = 0x0800_0000_0000_0000;

} // verus!
