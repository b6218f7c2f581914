# turbofile

Completion-driven file I/O. The library decides what to submit to the kernel,
in which order and with which offsets, and how every operation settles; the
threads, system calls and Python objects around it make the calls and report
back.

- `src/` is the library. Every function states what it returns or changes, and
  Verus proves it. The decisions are state machines: an event goes in, the next
  state and what to do come out.
- `app/` is the extension module: the AIO and runtime threads, the page-cache
  fast path, and the bindings.
- `tests/` runs the library, with a disk in memory where it takes one.

What is taken on trust is small: the numbers that `libc` gives to error codes,
open flags and the greatest offset, and the ends of `flume` channels.

## What is proved

- Every callback that a driver is handed comes out of it exactly once
  (`promise.rs`, and the contract of every method of `aio.rs`). Whatever order
  the threads act in, every callback that is submitted is called once, with the
  result of its own operation (`system.rs`, `runtime.rs`).
- No handle id is given out twice, also after a close (`event.rs`,
  `runtime.rs`).
- A handle counts the jobs on it, and its descriptor is closed only after the
  last of them (`state.rs`, `promise.rs`).
- A transfer in any number of chunks moves each byte once: a read replies what
  its chunks brought, and gives back what a write wrote, also in the caller's
  memory (`run.rs`, `round_trip.rs`, and `task_run.rs` for runtime tasks).
- An operation whose calls come back is answered after finitely many of them
  (`promise.rs`, `task_run.rs`).
- A cancelled operation takes no further chunk of those that the library asks
  for, and one that completed keeps its result (`promise.rs`, `task.rs`). What
  the runtime does within one of its own calls is not cut short.
- However the threads interleave, no completion is left behind in the queue of
  an event loop, and a burst costs one wake; a loop keeps its bridge until it is
  closed (`bridge.rs`).
- The pieces of a parallel read cover it exactly, and its count is how far the
  destination is filled without a gap (`group.rs`).
