//! The errors operations settle with.

use vstd::prelude::*;

use crate::host::Errno;

verus! {

/// The class of an error that has no `errno`.
#[derive(Debug, Clone, Copy, PartialEq, Eq, Structural)]
pub enum ErrorKind {
    NotFound,
    PermissionDenied,
    BrokenPipe,
    AlreadyExists,
    WouldBlock,
    InvalidInput,
    InvalidData,
    TimedOut,
    WriteZero,
    Interrupted,
    Unsupported,
    UnexpectedEof,
    OutOfMemory,
    Other,
}

/// Why an operation failed: an `errno` of a system call, or a refusal with its
/// reason.
#[derive(Debug, Clone, Copy, PartialEq, Eq)]
pub enum Error {
    Os(i32),
    Custom { kind: ErrorKind, message: &'static str },
}

/// The error for a handle that was never opened, or is closed or closing.
pub open spec fn bad_handle_spec() -> Error {
    Error::Custom {
        kind: ErrorKind::InvalidInput,
        message: "unknown or closed turbofile handle",
    }
}

/// The error for an operation whose driver thread has exited.
pub open spec fn driver_gone_spec() -> Error {
    Error::Custom { kind: ErrorKind::BrokenPipe, message: "turbofile driver thread is gone" }
}

/// The error an operation settles with when its cancel request won.
pub open spec fn cancelled_spec(errno: Errno) -> Error {
    Error::Os(errno.cancelled)
}

/// The error for an append whose blocking thread was lost.
pub open spec fn append_lost_spec() -> Error {
    Error::Custom { kind: ErrorKind::Other, message: "append task cancelled" }
}

pub fn append_lost() -> (e: Error)
    ensures
        e == append_lost_spec(),
{
    Error::Custom { kind: ErrorKind::Other, message: "append task cancelled" }
}

pub fn bad_handle() -> (e: Error)
    ensures
        e == bad_handle_spec(),
{
    Error::Custom {
        kind: ErrorKind::InvalidInput,
        message: "unknown or closed turbofile handle",
    }
}

pub fn driver_gone() -> (e: Error)
    ensures
        e == driver_gone_spec(),
{
    Error::Custom { kind: ErrorKind::BrokenPipe, message: "turbofile driver thread is gone" }
}

/// The error an op settles with when its cancel request won.
pub fn cancelled_error(errno: &Errno) -> (e: Error)
    ensures
        e == cancelled_spec(*errno),
{
    Error::Os(errno.cancelled)
}

/// Whether `e` is the error of a won cancel request.
pub fn is_cancelled(e: &Error, errno: &Errno) -> (yes: bool)
    ensures
        yes == (*e == cancelled_spec(*errno)),
{
    match e {
        Error::Os(code) => *code == errno.cancelled,
        Error::Custom { .. } => false,
    }
}

/// The refusals of the library are told apart from each other, from every error
/// of the system and so from a cancellation: a bad handle is invalid input, a
/// driver that is gone a broken pipe, a lost append neither.
pub proof fn refusals_are_told_apart(errno: Errno, code: i32)
    ensures
        bad_handle_spec() matches Error::Custom { kind, .. } && kind is InvalidInput,
        driver_gone_spec() matches Error::Custom { kind, .. } && kind is BrokenPipe,
        append_lost_spec() matches Error::Custom { kind, .. } && kind is Other,
        bad_handle_spec()->message@ == "unknown or closed turbofile handle"@,
        driver_gone_spec()->message@ == "turbofile driver thread is gone"@,
        append_lost_spec()->message@ == "append task cancelled"@,
        cancelled_spec(errno) == Error::Os(code) <==> code == errno.cancelled,
        cancelled_spec(errno) != bad_handle_spec(),
        cancelled_spec(errno) != driver_gone_spec(),
        cancelled_spec(errno) != append_lost_spec(),
{
}

/// None of the other codes is taken for a won cancel request.
pub proof fn no_other_code_is_a_cancellation(errno: Errno)
    requires
        errno.wf(),
    ensures
        Error::Os(errno.again) != cancelled_spec(errno),
        Error::Os(errno.interrupted) != cancelled_spec(errno),
        Error::Os(errno.in_progress) != cancelled_spec(errno),
{
}

} // verus!
