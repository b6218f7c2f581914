//! Completion-driven file I/O: what to submit, in which order, with which
//! offsets, and how every operation settles.
//!
//! The crate decides; it performs no I/O. A driver loop outside it makes the
//! system calls that the functions here ask for and hands the outcomes back.
//!
//! - [`error`], [`host`], [`op`]: errors, the platform's numbers, operations.
//! - [`channel`], [`submit`]: message channels and the submission front.
//! - [`open`], [`job`]: opening a file, and one transfer in chunks. [`run`] and
//!   [`round_trip`] say what a transfer amounts to as a whole.
//! - [`aio`], [`port`]: the queueing driver with its handle table, and its
//!   channels. [`effect`] holds what it asks for, [`state`] and [`tally`] its
//!   invariant, [`limits`] its bounds, [`event`] and [`promise`] what it
//!   promises across events, [`driver_calls`] what it asks of the system,
//!   [`system`] what it promises with the threads around it.
//! - [`task`]: the backend on an asynchronous runtime, one task per operation.
//!   [`task_run`] says what a task amounts to as a whole, [`task_calls`] which
//!   calls it makes, [`runtime`] what the backend promises with the threads
//!   around it.
//! - [`cached`], [`residency`]: reads served from the page cache.
//! - [`group`], [`bridge`], [`deliver`]: parallel reads, and completions on
//!   their way to an event loop.

pub mod error;
pub mod host;
pub mod op;
pub mod job;
pub mod run;
pub mod round_trip;
pub mod tally;
pub mod limits;
pub mod channel;
pub mod effect;
pub mod open;
pub mod submit;
pub mod state;
pub mod event;
pub mod aio;
pub mod port;
pub mod task;
pub mod task_run;
pub mod task_calls;
pub mod cached;
pub mod residency;
pub mod group;
pub mod bridge;
pub mod deliver;
pub mod promise;
pub mod system;
pub mod runtime;
pub mod driver_calls;
