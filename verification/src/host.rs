//! What the host machine reports of itself, queried once at construction
//! time: total memory to size the cache budget, and the CPU count to size
//! the worker pool.

use vstd::prelude::*;

verus! {

/// Cache budget in bytes used when the host memory size cannot be
/// determined.
pub const DEFAULT_CACHE_BUDGET_BYTES: u64 = 500_000_000;

/// Relies on sys_info::mem_info: reports the host's total physical
/// memory, in KiB. The value depends on the machine, so nothing is
/// promised of it; `None` when the query fails.
#[verifier::external_body]
pub(crate) fn query_total_memory_kib() -> (r: Option<u64>) {
    sys_info::mem_info().ok().map(|m| m.total)
}

/// Relies on sys_info::cpu_num: reports the host's CPU core count. The
/// value depends on the machine, so nothing is promised of it; `None`
/// when the query fails.
#[verifier::external_body]
pub(crate) fn query_cpu_count() -> (r: Option<u32>) {
    sys_info::cpu_num().ok()
}

/// The byte budget derived from the host's total memory in KiB: an
/// eighth of it, converted to bytes (saturating at the integer ceiling),
/// or the fixed default when the memory size is unknown.
pub open spec fn spec_cache_budget(total_kib: Option<u64>) -> int {
    match total_kib {
        Some(t) => if (t as int / 8) * 1024 <= u64::MAX {
            (t as int / 8) * 1024
        } else {
            u64::MAX as int
        },
        None => DEFAULT_CACHE_BUDGET_BYTES as int,
    }
}

/// The worker-pool size derived from the host's CPU count: the count
/// clamped to [2, 4], and 4 when it is unknown.
pub open spec fn spec_worker_count(cpus: Option<u32>) -> u32 {
    match cpus {
        Some(c) => if c < 2 {
            2
        } else if c > 4 {
            4
        } else {
            c
        },
        None => 4,
    }
}

/// Computes the cache byte budget from the reported memory size.
pub fn cache_budget_bytes(total_kib: Option<u64>) -> (b: u64)
    ensures
        b as int == spec_cache_budget(total_kib),
{
    match total_kib {
        Some(t) => {
            let eighth = t / 8;
            if eighth <= u64::MAX / 1024 {
                eighth * 1024
            } else {
                u64::MAX
            }
        },
        None => DEFAULT_CACHE_BUDGET_BYTES,
    }
}

/// Computes the worker-pool size from the reported CPU count.
pub fn worker_count_from(cpus: Option<u32>) -> (n: u32)
    ensures
        n == spec_worker_count(cpus),
        2 <= n <= 4,
{
    match cpus {
        Some(c) => {
            let lo = if c < 2 {
                2
            } else {
                c
            };
            if lo > 4 {
                4
            } else {
                lo
            }
        },
        None => 4,
    }
}

} // verus!
