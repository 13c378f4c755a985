//! The one decision in process hardening: how much memory to lock.
//!
//! Locking pages keeps decrypted secrets out of swap. The soft
//! `RLIMIT_MEMLOCK` is raised to the hard cap, and future pages are locked too
//! (`MCL_FUTURE`) only when that cap is unlimited: otherwise a later
//! memory-hard allocation (the scrypt KDF on unlock) would exceed the limit and
//! abort the whole process.
use vstd::prelude::*;

verus! {

/// What to ask the kernel for, once the current `RLIMIT_MEMLOCK` is known.
#[derive(Debug, Clone, Copy, PartialEq, Eq)]
pub struct MemlockPlan {
    /// The new soft limit (and unchanged hard limit).
    pub soft_limit: u64,
    /// Whether to lock future pages as well as current ones.
    pub lock_future: bool,
}

/// The locking plan for a hard limit `hard_limit`, where `unlimited` is the
/// platform's `RLIM_INFINITY`.
pub fn memlock_plan(hard_limit: u64, unlimited: u64) -> (p: MemlockPlan)
    ensures
        p.soft_limit == hard_limit,
        p.lock_future == (hard_limit == unlimited),
{
    MemlockPlan { soft_limit: hard_limit, lock_future: hard_limit == unlimited }
}

} // verus!
