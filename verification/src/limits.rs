//! Bounds of the queueing driver: how long it waits, how many requests it keeps
//! at the kernel, and how many threads open files for it.

use vstd::prelude::*;

verus! {

/// The wait for completions right after a pass that made progress. A
/// submission arriving while ops are in flight waits at most this long to be
/// noticed, as long as traffic keeps flowing.
pub const SUSPEND_MIN_NS: i64 = 20_000;

/// Cap on the wait once passes stop making progress.
pub const SUSPEND_MAX_NS: i64 = 160_000;

/// The number of requests to keep in flight when the kernel does not tell how
/// many it takes.
pub const FALLBACK_MAX_INFLIGHT: usize = 16;

/// Bounds on the threads that open files while the driver has a backlog.
pub const MIN_OPEN_THREADS: usize = 2;

pub const MAX_OPEN_THREADS: usize = 4;

/// The number of threads that open files on a machine with `hardware` threads.
pub open spec fn helpers(hardware: usize) -> usize {
    if hardware / 3 < MIN_OPEN_THREADS {
        MIN_OPEN_THREADS
    } else if hardware / 3 > MAX_OPEN_THREADS {
        MAX_OPEN_THREADS
    } else {
        hardware / 3
    }
}

/// There are two to four threads that open files, one for every three of the
/// machine's where that is possible, and never fewer on a larger machine.
pub proof fn the_helpers_are_a_third_of_the_machine(hardware: usize, larger: usize)
    ensures
        2 <= helpers(hardware) <= 4,
        helpers(hardware) > 2 ==> 3 * helpers(hardware) <= hardware,
        helpers(hardware) < 4 ==> hardware < 3 * helpers(hardware) + 3,
        hardware <= larger ==> helpers(hardware) <= helpers(larger),
{
}

/// The number of requests to keep in flight, from the return code of the
/// kernel query and the value it stored.
pub open spec fn limit(rc: i32, value: i32) -> usize {
    if rc == 0 && value > 0 {
        value as usize
    } else {
        FALLBACK_MAX_INFLIGHT
    }
}

/// The driver keeps as many requests in flight as the kernel says it takes, and
/// sixteen where the kernel says nothing or nothing of use; in any case it
/// keeps one.
pub proof fn the_kernel_sets_the_limit(rc: i32, value: i32)
    ensures
        limit(rc, value) >= 1,
        limit(rc, value) == value || limit(rc, value) == 16,
        limit(rc, value) != value ==> rc != 0 || value <= 0,
        rc != 0 || value <= 0 ==> limit(rc, value) == 16,
{
}

/// The wait for completions is twenty microseconds at least and eight times
/// that at most.
pub proof fn the_wait_is_short()
    ensures
        SUSPEND_MIN_NS == 20 * 1000,
        SUSPEND_MAX_NS == 8 * SUSPEND_MIN_NS,
{
}

/// How many threads open files on a machine with `hardware` threads: one for
/// every three, within the bounds.
pub fn helpers_for(hardware: usize) -> (n: usize)
    ensures
        n == (if hardware / 3 < MIN_OPEN_THREADS {
            MIN_OPEN_THREADS
        } else if hardware / 3 > MAX_OPEN_THREADS {
            MAX_OPEN_THREADS
        } else {
            hardware / 3
        }),
        n == helpers(hardware),
{
    let third: usize = hardware / 3;
    if third < MIN_OPEN_THREADS {
        MIN_OPEN_THREADS
    } else if third > MAX_OPEN_THREADS {
        MAX_OPEN_THREADS
    } else {
        third
    }
}

/// How many requests to keep in flight, from the return code of the kernel
/// query and the value it stored: that value if the query succeeded and it is
/// positive.
pub fn inflight_limit(rc: i32, value: i32) -> (limit: usize)
    ensures
        limit == (if rc == 0 && value > 0 {
            value as usize
        } else {
            FALLBACK_MAX_INFLIGHT
        }),
        limit > 0,
        limit == self::limit(rc, value),
{
    if rc == 0 && value > 0 {
        value as usize
    } else {
        FALLBACK_MAX_INFLIGHT
    }
}

} // verus!
