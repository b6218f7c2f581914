//! Numbers that the platform's C library gives to error codes and open flags.
//!
//! They differ between targets, so everything that decides by one of them
//! takes it from a value of [`Errno`] or [`OpenBits`] and is exact for
//! whatever numbers that value holds.

use vstd::prelude::*;

verus! {

/// The system that the process runs on, as far as anything depends on it.
#[derive(Debug, Clone, Copy, PartialEq, Eq, Structural)]
pub enum Platform {
    Linux,
    MacOs,
    Other,
}

/// The error codes that decide how an operation goes on.
#[derive(Debug, Clone, Copy, PartialEq, Eq, Structural)]
pub struct Errno {
    /// The operation was cancelled.
    pub cancelled: i32,
    /// The call would have blocked, or a kernel queue is full.
    pub again: i32,
    /// A signal interrupted the call before it did anything.
    pub interrupted: i32,
    /// An asynchronous request has not completed yet.
    pub in_progress: i32,
}

/// The constants `libc::ECANCELED`, `libc::EAGAIN`, `libc::EINTR` and
/// `libc::EINPROGRESS`. On every target that defines all of them they are
/// nonzero and differ from each other. Their values depend on the target and
/// are left unsaid.
#[verifier::external_body]
fn libc_errno() -> (errno: Errno)
    ensures
        errno.wf(),
{
    Errno {
        cancelled: libc::ECANCELED,
        again: libc::EAGAIN,
        interrupted: libc::EINTR,
        in_progress: libc::EINPROGRESS,
    }
}

impl Errno {
    /// No code is 0, so none is mistaken for success, and no two are the same,
    /// so none is mistaken for another: an interrupted call is no cancellation.
    pub open spec fn wf(self) -> bool {
        &&& self.cancelled != 0
        &&& self.again != 0
        &&& self.interrupted != 0
        &&& self.in_progress != 0
        &&& self.cancelled != self.again
        &&& self.cancelled != self.interrupted
        &&& self.cancelled != self.in_progress
        &&& self.again != self.interrupted
        &&& self.again != self.in_progress
        &&& self.interrupted != self.in_progress
    }

    /// The codes of the platform this runs on.
    pub fn host() -> (errno: Errno)
        ensures
            errno.wf(),
    {
        libc_errno()
    }
}

/// The constant `libc::off_t::MAX`, the greatest offset that the kernel's file
/// calls take. On every target `libc::off_t` is a signed integer of 32 or of 64
/// bits. Which of the two depends on the target and is left unsaid.
#[verifier::external_body]
fn libc_off_max() -> (max: i64)
    ensures
        max == i32::MAX || max == i64::MAX,
{
    libc::off_t::MAX as i64
}

/// The greatest file offset that the platform's calls take: all that 32 or 64
/// bits with a sign hold.
pub fn off_max() -> (max: i64)
    ensures
        max == i32::MAX || max == i64::MAX,
{
    libc_off_max()
}

/// The `open` flags of the platform.
#[derive(Debug, Clone, Copy, PartialEq, Eq, Structural)]
pub struct OpenBits {
    pub read_only: i32,
    pub write_only: i32,
    pub read_write: i32,
    pub cloexec: i32,
    pub append: i32,
    pub truncate: i32,
    pub create: i32,
    pub exclusive: i32,
}

/// The constants `libc::O_RDONLY`, `libc::O_WRONLY`, `libc::O_RDWR`,
/// `libc::O_CLOEXEC`, `libc::O_APPEND`, `libc::O_TRUNC`, `libc::O_CREAT` and
/// `libc::O_EXCL`. On every target that defines all of them the three access
/// modes differ, and no two of the others share a bit with each other or with
/// an access mode; `O_APPEND`, `O_TRUNC`, `O_CREAT` and `O_EXCL` are not 0.
/// Their values depend on the target and are left unsaid.
#[verifier::external_body]
fn libc_open_bits() -> (bits: OpenBits)
    ensures
        bits.wf(),
{
    OpenBits {
        read_only: libc::O_RDONLY,
        write_only: libc::O_WRONLY,
        read_write: libc::O_RDWR,
        cloexec: libc::O_CLOEXEC,
        append: libc::O_APPEND,
        truncate: libc::O_TRUNC,
        create: libc::O_CREAT,
        exclusive: libc::O_EXCL,
    }
}

impl OpenBits {
    /// All bits that an access mode may have.
    pub open spec fn access(self) -> i32 {
        self.read_only | self.write_only | self.read_write
    }

    /// The flags can be told apart in a word that holds several of them: the
    /// access modes differ, and no flag shares a bit with another or with an
    /// access mode. A platform may do without close-on-exec.
    pub open spec fn wf(self) -> bool {
        &&& self.read_only != self.write_only
        &&& self.read_only != self.read_write
        &&& self.write_only != self.read_write
        &&& self.append != 0
        &&& self.truncate != 0
        &&& self.create != 0
        &&& self.exclusive != 0
        &&& self.cloexec & self.access() == 0
        &&& self.append & (self.access() | self.cloexec) == 0
        &&& self.truncate & (self.access() | self.cloexec | self.append) == 0
        &&& self.create & (self.access() | self.cloexec | self.append | self.truncate) == 0
        &&& self.exclusive & (self.access() | self.cloexec | self.append | self.truncate
            | self.create) == 0
    }

    /// The flags of the platform this runs on. Their values are the
    /// platform's own; no caller may count on particular ones.
    pub fn host() -> (bits: OpenBits)
        ensures
            bits.wf(),
    {
        libc_open_bits()
    }
}

} // verus!
