//! What the queueing driver asks of the loop around it, and what the loop
//! reports back.

use std::path::PathBuf;

use vstd::multiset::Multiset;
use vstd::prelude::*;

use crate::error::{driver_gone, driver_gone_spec, Error};
use crate::job::Stat;
use crate::op::{outcome, OpenSpec, Payload, Reply, ReplyView};
use crate::system::unit_reply;

verus! {

/// A callback and what to call it with.
pub struct Settlement<C> {
    pub cb: C,
    pub result: Result<Reply, Error>,
}

impl<C> Settlement<C> {
    /// `cb` is called with `result`.
    pub open spec fn tells(self, cb: C, result: Result<ReplyView, Error>) -> bool {
        self.cb == cb && outcome(self.result) == result
    }
}

/// What an op does with its descriptor once it exists.
pub enum AfterOpen<'a> {
    Handle,
    ReadFile { inline_max: u64 },
    WriteFile { data: Payload<'a> },
}

/// An op between its submission and its open.
pub struct PendingOpen<'a, C> {
    pub id: u64,
    pub goal: AfterOpen<'a>,
    pub cb: C,
}

/// An open to run.
pub struct OpenJob<'a, C> {
    pub path: PathBuf,
    pub spec: OpenSpec,
    pub pending: PendingOpen<'a, C>,
}

/// Work for a helper thread: an open whose descriptor comes back to the
/// driver, or a close nothing waits for.
pub enum HelperJob<'a, C> {
    Open(OpenJob<'a, C>),
    Close(i32),
}

/// An open that a helper thread has run: the descriptor and the size, or why
/// there is none.
pub struct Opened<'a, C> {
    pub pending: PendingOpen<'a, C>,
    pub result: Result<(i32, u64), Error>,
}

/// What is left of an [`Opened`] that no driver takes any more: the descriptor
/// to close, and the callback to tell.
pub struct Orphan<C> {
    pub close: Option<i32>,
    pub settled: Settlement<C>,
}

/// What is left of an open that no driver takes any more.
pub open spec fn leaves<'a, C>(opened: Opened<'a, C>, orphan: Orphan<C>) -> bool {
    &&& orphan.close == (match opened.result {
        Ok((fd, _)) => Some(fd),
        Err(_) => None,
    })
    &&& orphan.settled.tells(opened.pending.cb, Err(driver_gone_spec()))
}

/// An open that no driver takes any more leaves no descriptor open, and its
/// callback is told that the driver is gone.
pub proof fn an_orphan_is_closed_and_told<'a, C>(opened: Opened<'a, C>, orphan: Orphan<C>)
    requires
        leaves(opened, orphan),
    ensures
        opened.result matches Ok((fd, _)) ==> orphan.close == Some(fd),
        orphan.close is Some ==> opened.result is Ok,
        orphan.settled.cb == opened.pending.cb,
        orphan.settled.result matches Err(Error::Custom { kind, .. }) && kind is BrokenPipe,
{
}

/// A helper's open came back after the driver was gone: its descriptor is
/// closed and the op settles as one without a driver.
pub fn orphaned<'a, C>(opened: Opened<'a, C>) -> (orphan: Orphan<C>)
    ensures
        orphan.close == (match opened.result {
            Ok((fd, _)) => Some(fd),
            Err(_) => None,
        }),
        orphan.settled.tells(opened.pending.cb, Err(driver_gone_spec())),
        leaves(opened, orphan),
{
    let close = match opened.result {
        Ok((fd, _)) => Some(fd),
        Err(_) => None,
    };
    Orphan { close, settled: Settlement { cb: opened.pending.cb, result: Err(driver_gone()) } }
}

/// An open handle: its descriptor, the number of jobs that work on it, and
/// what waits for its close once they are done.
pub struct FileEntry<C> {
    pub fd: i32,
    pub ops: usize,
    pub closing: Option<C>,
}

/// What an operation asks of the loop.
pub enum Effect<'a, C> {
    /// Call back.
    Settle(Settlement<C>),
    /// Open on this thread and report by
    /// [`Driver::opened`](crate::aio::Driver::opened).
    OpenHere(OpenJob<'a, C>),
    /// Hand the open to a helper thread by
    /// [`Port::hand_over`](crate::port::Port::hand_over); it comes back by
    /// [`Driver::handle_opened`](crate::aio::Driver::handle_opened). If no
    /// helper takes it and `hand_over` gives it back, open here.
    OpenAway(OpenJob<'a, C>),
    /// Close the descriptor, then call back with [`unit_outcome`].
    Close { fd: i32, cb: C },
    /// Set the length of the file, then call back with [`unit_outcome`].
    SetLen { fd: i32, size: u64, cb: C },
}

/// The callback that an effect carries out of the driver.
pub open spec fn carried<'a, C>(effect: Option<Effect<'a, C>>) -> Multiset<C> {
    match effect {
        None => Multiset::empty(),
        Some(Effect::Settle(s)) => Multiset::singleton(s.cb),
        Some(Effect::OpenHere(job)) => Multiset::singleton(job.pending.cb),
        Some(Effect::OpenAway(job)) => Multiset::singleton(job.pending.cb),
        Some(Effect::Close { cb, .. }) => Multiset::singleton(cb),
        Some(Effect::SetLen { cb, .. }) => Multiset::singleton(cb),
    }
}

/// Call back with the outcome of a call that returns nothing but its success:
/// a close, or a change of length.
pub fn unit_outcome<C>(cb: C, result: Result<(), Error>) -> (s: Settlement<C>)
    ensures
        s.tells(
            cb,
            match result {
                Ok(()) => Ok(ReplyView::Unit),
                Err(e) => Err(e),
            },
        ),
        s.tells(cb, unit_reply(result)),
{
    match result {
        Ok(()) => Settlement { cb, result: Ok(Reply::Unit) },
        Err(e) => Settlement { cb, result: Err(e) },
    }
}

/// The close of a descriptor that only a job knew about.
#[derive(Debug, Clone, Copy, PartialEq, Eq, Structural)]
pub struct OwnedClose {
    pub fd: i32,
    /// Whether a helper thread takes the call.
    pub away: bool,
}

/// The close of a handle that waited for its last job.
pub struct DeferredClose<C> {
    pub fd: i32,
    pub cb: C,
}

/// What the end of a job asks of the loop, in this order: close the job's own
/// descriptor, call back, close the handle and call back with
/// [`unit_outcome`].
pub struct Finish<C> {
    pub owned: Option<OwnedClose>,
    pub settled: Settlement<C>,
    pub deferred: Option<DeferredClose<C>>,
}

impl<C> Finish<C> {
    /// The callbacks that the end of a job carries out of the driver.
    pub open spec fn carried(self) -> Multiset<C> {
        match self.deferred {
            Some(d) => Multiset::singleton(self.settled.cb).insert(d.cb),
            None => Multiset::singleton(self.settled.cb),
        }
    }
}

/// What a cancel request asks of the loop.
pub enum CancelStep<C> {
    Finished(Finish<C>),
    /// Ask the kernel to abort the request at this place in flight.
    Abort { index: usize, fd: i32 },
    AtOpen,
    Unknown,
}

/// What a message asks of the loop.
pub enum AfterMsg<'a, C> {
    Op(Option<Effect<'a, C>>),
    Cancel(CancelStep<C>),
}

impl<C> CancelStep<C> {
    /// The callbacks that a cancel request carries out of the driver.
    pub open spec fn carried(self) -> Multiset<C> {
        match self {
            CancelStep::Finished(finish) => finish.carried(),
            _ => Multiset::empty(),
        }
    }
}

impl<'a, C> AfterMsg<'a, C> {
    /// The callbacks that a message carries out of the driver.
    pub open spec fn carried(self) -> Multiset<C> {
        match self {
            AfterMsg::Op(effect) => carried(effect),
            AfterMsg::Cancel(step) => step.carried(),
        }
    }
}

/// A chunk that came back: the count, the bytes of it that were read into a
/// fresh allocation, and what `fstat` says where the job depends on it.
pub struct Chunk {
    pub n: usize,
    pub bytes: Vec<u8>,
    pub stat: Result<Stat, Error>,
}

/// What a chunk led to.
pub enum AfterChunk<C> {
    Requeued,
    Finished(Finish<C>),
}

/// What the call to the kernel led to.
pub enum AfterSubmit<C> {
    /// The job is in flight.
    Inflight,
    /// The kernel takes no request and none of ours is in flight: run the job
    /// with blocking calls.
    RunSync,
    /// The kernel takes no more requests for now; the job is queued again.
    Full,
    Finished(Finish<C>),
}

/// What a completed request led to.
pub enum AfterReap<C> {
    /// The request has not completed.
    Running,
    Requeued,
    Finished(Finish<C>),
}

/// What an opened descriptor that came back led to.
pub enum AfterReturn<C> {
    /// The op was cancelled: close the descriptor, if there is one.
    Cancelled { close: Option<i32>, settled: Settlement<C> },
    Settled(Settlement<C>),
    Queued,
}

impl<C> AfterChunk<C> {
    /// The callbacks that a chunk carries out of the driver.
    pub open spec fn carried(self) -> Multiset<C> {
        match self {
            AfterChunk::Requeued => Multiset::empty(),
            AfterChunk::Finished(finish) => finish.carried(),
        }
    }
}

impl<C> AfterSubmit<C> {
    /// The callbacks that a call to the kernel carries out of the driver.
    pub open spec fn carried(self) -> Multiset<C> {
        match self {
            AfterSubmit::Finished(finish) => finish.carried(),
            _ => Multiset::empty(),
        }
    }
}

impl<C> AfterReap<C> {
    /// The callbacks that a request carries out of the driver.
    pub open spec fn carried(self) -> Multiset<C> {
        match self {
            AfterReap::Finished(finish) => finish.carried(),
            _ => Multiset::empty(),
        }
    }
}

impl<C> AfterReturn<C> {
    /// The callbacks that an opened descriptor carries out of the driver.
    pub open spec fn carried(self) -> Multiset<C> {
        match self {
            AfterReturn::Cancelled { settled, .. } => Multiset::singleton(settled.cb),
            AfterReturn::Settled(settled) => Multiset::singleton(settled.cb),
            AfterReturn::Queued => Multiset::empty(),
        }
    }
}

/// What the loop waits for when nothing is queued or in flight.
#[derive(Debug, Clone, Copy, PartialEq, Eq, Structural)]
pub enum Wait {
    /// Nothing: there is work, and the pass goes on.
    Busy,
    /// Nothing: no more work can come.
    Exit,
    /// A descriptor from a helper.
    Opened,
    /// A submission.
    Submission,
    /// A submission or a descriptor.
    Either,
}

} // verus!
