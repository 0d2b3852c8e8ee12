//! Pinning the calling thread to one logical core.
use vstd::prelude::*;

verus! {

/// Number of logical core ids that a CPU affinity set can name on Linux
/// (`CPU_SETSIZE`); higher ids cannot be pinned to.
pub const KERN_GRENZE: usize = 1024;

/// Calls `core_affinity::set_for_current` for the core with id `kern`.
/// The result (whether the operating system accepted the new affinity) depends
/// on the machine, so nothing is promised of it. The call panics for ids at or
/// above `CPU_SETSIZE`, which the `requires` rules out.
#[verifier::external_body]
pub(crate) fn kern_binden(kern: usize) -> (ok: bool)
    requires
        kern < KERN_GRENZE,
{
    core_affinity::set_for_current(core_affinity::CoreId { id: kern })
}

} // verus!
