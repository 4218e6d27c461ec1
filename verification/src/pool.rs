//! The size of the worker pool that the row tasks of a frame run on.

use vstd::prelude::*;

verus! {

/// `num_cpus::get`: the number of logical CPUs that this process may run on.
/// It depends on the machine and on the limits set for the process: nothing
/// is claimed of the result.
#[verifier::external_body]
fn logical_cpus() -> (cpus: usize) {
    num_cpus::get()
}

/// The number of workers of a pool on a machine with `cpus` logical CPUs:
/// one worker each, and one worker where no CPU was counted.
pub open spec fn spec_workers_for(cpus: usize) -> usize {
    if cpus == 0 {
        1
    } else {
        cpus
    }
}

/// The number of workers of a pool on a machine with `cpus` logical CPUs.
pub fn workers_for(cpus: usize) -> (workers: usize)
    ensures
        workers == spec_workers_for(cpus),
{
    if cpus == 0 {
        1
    } else {
        cpus
    }
}

/// The number of workers of the pool on this machine: one for each logical
/// CPU, never fewer than one.
pub fn worker_count() -> (workers: usize)
    ensures
        workers >= 1,
{
    workers_for(logical_cpus())
}

} // verus!
