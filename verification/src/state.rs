//! The state of the queueing driver as mathematics: its invariant, what each
//! event does to it, and why the invariant is kept.

use vstd::multiset::Multiset;
use vstd::prelude::*;

use crate::effect::{
    AfterChunk, AfterMsg, AfterOpen, AfterReap, AfterReturn, AfterSubmit, CancelStep, Chunk,
    DeferredClose, Effect, FileEntry, Finish, HelperJob, OpenJob, Opened, OwnedClose, PendingOpen,
    Settlement, Wait,
};
use crate::error::{bad_handle_spec, cancelled_spec, Error};
use crate::host::Errno;
use crate::job::{
    reported_size, FsyncJob, Job, JobKindView, JobView, ReadBufView, ReadJobView, Stat, Transfer,
    Want, WriteJobView,
};
use crate::limits::{SUSPEND_MAX_NS, SUSPEND_MIN_NS};
use crate::op::{Dest, Msg, Op, OpenSpec, ReplyView};
use crate::tally::{
    callbacks, in_slot, lemma_bounds, lemma_push, lemma_push_front, lemma_remove, lemma_single,
    lemma_swap_remove, lemma_update, uses,
};

verus! {

/// The driver's state, its collections as mathematical ones.
#[verifier::reject_recursive_types(C)]
pub struct DriverView<'a, C> {
    pub errno: Errno,
    pub pending_opens: Set<u64>,
    pub cancelled_opens: Set<u64>,
    pub helpers_gone: bool,
    pub files: Map<u64, FileEntry<C>>,
    pub next_id: u64,
    pub inflight: Seq<Job<'a, C>>,
    pub submitting: Option<Job<'a, C>>,
    pub queue: Seq<Job<'a, C>>,
    pub max_inflight: usize,
    pub disconnected: bool,
    pub suspend_ns: i64,
    pub progress: bool,
}

/// What waits for the close of the handle `h`, if anything does.
pub open spec fn closing_of<C>(files: Map<u64, FileEntry<C>>, h: u64) -> Option<C> {
    if files.contains_key(h) {
        files[h].closing
    } else {
        None
    }
}

/// A callback that may be there, as a multiset.
pub open spec fn at_most_one<C>(cb: Option<C>) -> Multiset<C> {
    match cb {
        Some(cb) => Multiset::singleton(cb),
        None => Multiset::empty(),
    }
}

/// The callbacks that wait for the close of a handle below `below`.
pub open spec fn closings<C>(files: Map<u64, FileEntry<C>>, below: nat) -> Multiset<C>
    decreases below,
{
    if below == 0 {
        Multiset::empty()
    } else {
        closings(files, (below - 1) as nat).add(at_most_one(closing_of(files, (below - 1) as u64)))
    }
}

/// Files that differ in one handle at most differ in what waits for it.
pub proof fn lemma_closings_differ<C>(
    one: Map<u64, FileEntry<C>>,
    other: Map<u64, FileEntry<C>>,
    h: u64,
    below: nat,
)
    requires
        below <= u64::MAX,
        forall|k: u64| k != h ==> #[trigger] closing_of(one, k) == closing_of(other, k),
    ensures
        h < below ==> closings(one, below).add(at_most_one(closing_of(other, h))) == closings(
            other,
            below,
        ).add(at_most_one(closing_of(one, h))),
        h >= below ==> closings(one, below) == closings(other, below),
    decreases below,
{
    if below > 0 {
        lemma_closings_differ(one, other, h, (below - 1) as nat);
        let k = (below - 1) as u64;
        if k != h {
            assert(closing_of(one, k) == closing_of(other, k));
        }
        if h < below {
            let c1 = at_most_one(closing_of(one, h));
            let c2 = at_most_one(closing_of(other, h));
            let rest1 = closings(one, k as nat);
            let rest2 = closings(other, k as nat);
            if k == h {
                assert(rest1.add(c1).add(c2) =~= rest2.add(c2).add(c1));
            } else {
                let c = at_most_one(closing_of(one, k));
                assert(rest1.add(c).add(c2) =~= rest1.add(c2).add(c));
                assert(rest2.add(c).add(c1) =~= rest2.add(c1).add(c));
            }
        } else {
            assert(closings(one, below) =~= closings(other, below));
        }
    }
}

impl<'a, C> DriverView<'a, C> {
    /// How many jobs work on the handle `h`, wherever they are.
    pub open spec fn uses(self, h: u64) -> nat {
        uses(self.queue, h) + uses(self.inflight, h) + uses(in_slot(self.submitting), h)
    }

    /// How many jobs there are.
    pub open spec fn load(self) -> nat {
        self.queue.len() + self.inflight.len() + in_slot(self.submitting).len()
    }

    /// The job's handle, if it works on one, is open on the job's descriptor.
    pub open spec fn rooted(self, job: Job<'a, C>) -> bool {
        job.kind@.handle() matches Some(h) ==> self.files.contains_key(h) && self.files[h].fd
            == job.kind@.fd()
    }

    /// The job is in order, and its handle is open on the job's descriptor.
    pub open spec fn sound(self, job: Job<'a, C>) -> bool {
        job.wf() && self.rooted(job)
    }

    /// Every callback that the driver holds: those of its jobs, and those that
    /// wait for a close.
    pub open spec fn waiting(self) -> Multiset<C> {
        callbacks(self.queue).add(callbacks(self.inflight)).add(
            callbacks(in_slot(self.submitting)),
        ).add(closings(self.files, self.next_id as nat))
    }

    /// The driver's invariant while the jobs `held` are out of its lists.
    pub open spec fn inv(self, held: Seq<Job<'a, C>>) -> bool {
        &&& self.errno.wf()
        &&& SUSPEND_MIN_NS <= self.suspend_ns <= SUSPEND_MAX_NS
        &&& self.inflight.len() + in_slot(self.submitting).len() <= self.max_inflight
        &&& self.load() + held.len() <= usize::MAX
        // Handles are given out in ascending order and never again.
        &&& self.next_id >= 1
        &&& forall|h: u64| #[trigger] self.files.contains_key(h) ==> 1 <= h < self.next_id
        // A handle counts the jobs that work on it, and a close waits only for
        // such jobs.
        &&& forall|h: u64| #[trigger]
            self.files.contains_key(h) ==> {
                &&& self.files[h].ops == self.uses(h) + uses(held, h)
                &&& self.files[h].closing is Some ==> self.files[h].ops > 0
            }
        &&& forall|i: int| 0 <= i < self.queue.len() ==> self.sound(#[trigger] self.queue[i])
        &&& forall|i: int| 0 <= i < self.inflight.len() ==> self.sound(#[trigger] self.inflight[i])
        &&& self.submitting matches Some(job) ==> self.sound(job)
        &&& forall|i: int| 0 <= i < held.len() ==> self.rooted(#[trigger] held[i])
    }

    /// The driver's invariant.
    pub open spec fn wf(self) -> bool {
        self.inv(Seq::empty())
    }

    /// Whether anything waits on the driver's thread: submissions not yet
    /// taken, jobs without a slot at the kernel, or opens out at the helpers.
    pub open spec fn backlog(self, unread: bool) -> bool {
        unread || self.queue.len() > 0 || !(self.pending_opens == Set::<u64>::empty())
    }

    /// The descriptor of a handle that takes operations.
    pub open spec fn fd_of(self, handle: u64) -> Result<i32, Error> {
        if self.files.contains_key(handle) && self.files[handle].closing is None {
            Ok(self.files[handle].fd)
        } else {
            Err(bad_handle_spec())
        }
    }

    /// The handle table with one more job on `handle`.
    pub open spec fn with_user(self, handle: Option<u64>) -> Map<u64, FileEntry<C>> {
        match handle {
            Some(h) => self.files.insert(
                h,
                FileEntry { ops: (self.files[h].ops + 1) as usize, ..self.files[h] },
            ),
            None => self.files,
        }
    }

    /// `new` is this state with `job` at the end of the queue and nothing else
    /// changed.
    pub open spec fn enqueued(self, new: Self, job: JobView<C>) -> bool {
        &&& new.queue.len() == self.queue.len() + 1
        &&& new.queue.drop_last() == self.queue
        &&& new.queue.last()@ == job
        &&& new == DriverView {
            queue: new.queue,
            files: self.with_user(job.kind.handle()),
            ..self
        }
    }

    /// The state after the job on `handle` is gone: its handle counts one job
    /// less, and is closed if its close waited for this one.
    pub open spec fn released(self, handle: Option<u64>) -> Self {
        match handle {
            None => self,
            Some(h) => {
                let entry = self.files[h];
                DriverView {
                    files: if entry.ops == 1 && entry.closing is Some {
                        self.files.remove(h)
                    } else {
                        self.files.insert(h, FileEntry { ops: (entry.ops - 1) as usize, ..entry })
                    },
                    ..self
                }
            },
        }
    }

    /// Whether `finish` is what the end of `job` with `result` asks for.
    pub open spec fn finishes(
        self,
        job: JobView<C>,
        result: Result<ReplyView, Error>,
        unread: bool,
        finish: Finish<C>,
    ) -> bool {
        &&& finish.owned == (if job.kind.owned_fd() {
            Some(OwnedClose { fd: job.kind.fd(), away: self.backlog(unread) })
        } else {
            None
        })
        &&& finish.settled.tells(job.cb, result)
        &&& finish.deferred == (match job.kind.handle() {
            Some(h) if self.files[h].ops == 1 && self.files[h].closing is Some => Some(
                DeferredClose { fd: self.files[h].fd, cb: self.files[h].closing->0 },
            ),
            _ => None,
        })
    }

    /// The effect is to call `cb` with `result`.
    pub open spec fn replies(
        effect: Option<Effect<'a, C>>,
        cb: C,
        result: Result<ReplyView, Error>,
    ) -> bool {
        effect matches Some(Effect::Settle(s)) && s.tells(cb, result)
    }

    /// An open runs on this thread when nothing else waits on it, so a lone op
    /// pays no extra hop; under a backlog it goes to a helper thread.
    pub open spec fn opens(
        self,
        new: Self,
        job: OpenJob<'a, C>,
        unread: bool,
        effect: Option<Effect<'a, C>>,
    ) -> bool {
        if self.backlog(unread) {
            &&& new == DriverView {
                pending_opens: self.pending_opens.insert(job.pending.id),
                ..self
            }
            &&& effect == Some(Effect::OpenAway(job))
        } else {
            &&& new == self
            &&& effect == Some(Effect::OpenHere(job))
        }
    }

    /// The state when no helper takes `job`: an open is not out there.
    pub open spec fn without(self, job: HelperJob<'a, C>) -> Self {
        match job {
            HelperJob::Open(open) => DriverView {
                pending_opens: self.pending_opens.remove(open.pending.id),
                ..self
            },
            HelperJob::Close(_) => self,
        }
    }

    /// A close waits for the jobs on the handle; without any it goes ahead.
    /// Either way the handle takes no more operations.
    pub open spec fn closes(
        self,
        new: Self,
        handle: u64,
        cb: C,
        effect: Option<Effect<'a, C>>,
    ) -> bool {
        match self.fd_of(handle) {
            Err(e) => new == self && Self::replies(effect, cb, Err(e)),
            Ok(fd) => if self.files[handle].ops > 0 {
                &&& new == DriverView {
                    files: self.files.insert(
                        handle,
                        FileEntry { closing: Some(cb), ..self.files[handle] },
                    ),
                    ..self
                }
                &&& effect is None
            } else {
                &&& new == DriverView { files: self.files.remove(handle), ..self }
                &&& effect == Some(Effect::Close { fd, cb })
            },
        }
    }

    /// The read of a handle.
    pub open spec fn read_of(
        handle: u64,
        fd: i32,
        pos: u64,
        want: Want,
        buf: ReadBufView,
    ) -> JobKindView {
        JobKindView::Read(
            ReadJobView {
                handle: Some(handle),
                fd,
                owned_fd: false,
                pos,
                want,
                buf,
                filled: 0,
            },
        )
    }

    /// What an operation does: `new` is the state after it, `effect` what it
    /// asks of the loop. `unread` tells whether more submissions wait, `stat`
    /// what `fstat` says of the handle's descriptor.
    pub open spec fn handles(
        self,
        new: Self,
        id: u64,
        op: Op<'a>,
        cb: C,
        unread: bool,
        stat: Result<Stat, Error>,
        effect: Option<Effect<'a, C>>,
    ) -> bool {
        match op {
            Op::Nop => new == self && Self::replies(effect, cb, Ok(ReplyView::Unit)),
            Op::Open { path, spec } => self.opens(
                new,
                OpenJob { path, spec, pending: PendingOpen { id, goal: AfterOpen::Handle, cb } },
                unread,
                effect,
            ),
            Op::ReadFile { path, inline_max } => self.opens(
                new,
                OpenJob {
                    path,
                    spec: OpenSpec { read: true, ..OpenSpec::none() },
                    pending: PendingOpen { id, goal: AfterOpen::ReadFile { inline_max }, cb },
                },
                unread,
                effect,
            ),
            Op::WriteFile { path, data } => self.opens(
                new,
                OpenJob {
                    path,
                    spec: OpenSpec {
                        write: true,
                        create: true,
                        truncate: true,
                        ..OpenSpec::none()
                    },
                    pending: PendingOpen { id, goal: AfterOpen::WriteFile { data }, cb },
                },
                unread,
                effect,
            ),
            Op::Close { handle } => self.closes(new, handle, cb, effect),
            Op::Size { handle } => new == self && Self::replies(
                effect,
                cb,
                match self.fd_of(handle) {
                    Err(e) => Err(e),
                    Ok(_) => match reported_size(stat) {
                        Ok(size) => Ok(ReplyView::Size(size)),
                        Err(e) => Err(e),
                    },
                },
            ),
            Op::SetLen { handle, size } => new == self && match self.fd_of(handle) {
                Err(e) => Self::replies(effect, cb, Err(e)),
                Ok(fd) => effect == Some(Effect::SetLen { fd, size, cb }),
            },
            Op::Sync { handle, .. } => match self.fd_of(handle) {
                Err(e) => new == self && Self::replies(effect, cb, Err(e)),
                Ok(fd) => effect is None && self.enqueued(
                    new,
                    JobView {
                        id,
                        cancelled: false,
                        kind: JobKindView::Fsync(FsyncJob { handle, fd }),
                        cb,
                    },
                ),
            },
            Op::ReadAt { handle, pos, dest } => match self.fd_of(handle) {
                Err(e) => new == self && Self::replies(effect, cb, Err(e)),
                Ok(fd) => if dest.len() == 0 {
                    new == self && Self::replies(
                        effect,
                        cb,
                        Ok(
                            match dest {
                                Dest::Alloc { .. } => ReplyView::Bytes(Seq::empty()),
                                Dest::Into { .. } => ReplyView::Read { n: 0 },
                            },
                        ),
                    )
                } else {
                    effect is None && self.enqueued(
                        new,
                        JobView {
                            id,
                            cancelled: false,
                            kind: Self::read_of(
                                handle,
                                fd,
                                pos,
                                Want::Exact(dest.len()),
                                match dest {
                                    Dest::Alloc { len } => ReadBufView::Owned {
                                        data: Seq::empty(),
                                        room: len,
                                    },
                                    Dest::Into { addr, len } => ReadBufView::External { addr, len },
                                },
                            ),
                            cb,
                        },
                    )
                },
            },
            Op::ReadToEnd { handle, pos } => match self.fd_of(handle) {
                Err(e) => new == self && Self::replies(effect, cb, Err(e)),
                Ok(fd) => effect is None && self.enqueued(
                    new,
                    JobView {
                        id,
                        cancelled: false,
                        kind: Self::read_of(
                            handle,
                            fd,
                            pos,
                            Want::ToEnd,
                            ReadBufView::Owned {
                                data: Seq::empty(),
                                room: room_to_end(stat, pos),
                            },
                        ),
                        cb,
                    },
                ),
            },
            Op::WriteAt { handle, pos, data, append } => match self.fd_of(handle) {
                Err(e) => new == self && Self::replies(effect, cb, Err(e)),
                Ok(fd) => if data@.len() == 0 {
                    new == self && Self::replies(
                        effect,
                        cb,
                        if append {
                            match reported_size(stat) {
                                Ok(end) => Ok(ReplyView::Written { n: 0, end }),
                                Err(e) => Err(e),
                            }
                        } else {
                            Ok(ReplyView::Written { n: 0, end: pos })
                        },
                    )
                } else {
                    effect is None && self.enqueued(
                        new,
                        JobView {
                            id,
                            cancelled: false,
                            kind: JobKindView::Write(
                                WriteJobView {
                                    handle: Some(handle),
                                    fd,
                                    owned_fd: false,
                                    pos,
                                    append,
                                    data: data@,
                                    filled: 0,
                                },
                            ),
                            cb,
                        },
                    )
                },
            },
        }
    }

    /// Whether an operation depends on what `fstat` says, and of which
    /// descriptor: the size query, the room for a read to end, and the end
    /// position of an empty append.
    pub open spec fn asks_stat(self, op: Op<'a>) -> Option<i32> {
        let handle = match op {
            Op::Size { handle } => Some(handle),
            Op::ReadToEnd { handle, .. } => Some(handle),
            Op::WriteAt { handle, data, append, .. } if append && data@.len() == 0 => Some(handle),
            _ => None,
        };
        match handle {
            Some(h) => match self.fd_of(h) {
                Ok(fd) => Some(fd),
                Err(_) => None,
            },
            None => None,
        }
    }

    /// What becomes of an open: its error settles the op; a handle is
    /// registered, also for a file too large to be read inline; a whole-file
    /// read or write becomes a job that owns the descriptor.
    pub open spec fn continues(
        self,
        new: Self,
        pending: PendingOpen<'a, C>,
        result: Result<(i32, u64), Error>,
        settled: Option<Settlement<C>>,
    ) -> bool {
        match result {
            Err(e) => new == self && (settled matches Some(s) && s.tells(pending.cb, Err(e))),
            Ok((fd, size)) => match pending.goal {
                AfterOpen::WriteFile { data } => settled is None && self.enqueued(
                    new,
                    JobView {
                        id: pending.id,
                        cancelled: false,
                        kind: JobKindView::Write(
                            WriteJobView {
                                handle: None,
                                fd,
                                owned_fd: true,
                                pos: 0,
                                append: false,
                                data: data@,
                                filled: 0,
                            },
                        ),
                        cb: pending.cb,
                    },
                ),
                AfterOpen::ReadFile { inline_max } if size <= inline_max => settled is None
                    && self.enqueued(
                    new,
                    JobView {
                        id: pending.id,
                        cancelled: false,
                        kind: JobKindView::Read(
                            ReadJobView {
                                handle: None,
                                fd,
                                owned_fd: true,
                                pos: 0,
                                want: Want::ToEnd,
                                buf: ReadBufView::Owned {
                                    data: Seq::empty(),
                                    room: if (size as usize) < 1 {
                                        1
                                    } else {
                                        size as usize
                                    },
                                },
                                filled: 0,
                            },
                        ),
                        cb: pending.cb,
                    },
                ),
                _ => {
                    &&& new == DriverView {
                        next_id: (self.next_id + 1) as u64,
                        files: self.files.insert(
                            self.next_id,
                            FileEntry { fd, ops: 0, closing: None },
                        ),
                        ..self
                    }
                    &&& settled matches Some(s) && s.tells(
                        pending.cb,
                        Ok(ReplyView::Handle { id: self.next_id, size, fd: fd as i64 }),
                    )
                },
            },
        }
    }

    /// What an open that comes back from a helper leads to. A cancel request
    /// that came meanwhile wins: the descriptor is closed and the op settles
    /// as cancelled.
    pub open spec fn comes_back(self, new: Self, opened: Opened<'a, C>, after: AfterReturn<C>) -> bool {
        let id = opened.pending.id;
        let back = DriverView {
            progress: true,
            pending_opens: self.pending_opens.remove(id),
            cancelled_opens: self.cancelled_opens.remove(id),
            ..self
        };
        if self.cancelled_opens.contains(id) {
            &&& new == back
            &&& after matches AfterReturn::Cancelled { close, settled } && close == (
            match opened.result {
                Ok((fd, _)) => Some(fd),
                Err(_) => None,
            }) && settled.tells(opened.pending.cb, Err(cancelled_spec(self.errno)))
        } else {
            match after {
                AfterReturn::Settled(s) => back.continues(
                    new,
                    opened.pending,
                    opened.result,
                    Some(s),
                ),
                AfterReturn::Queued => back.continues(new, opened.pending, opened.result, None),
                AfterReturn::Cancelled { .. } => false,
            }
        }
    }

    /// What a cancel request does. A queued job settles as cancelled at once;
    /// one in flight is marked, and the loop asks the kernel to abort it; an
    /// op still at its open is remembered. An unknown id is done already.
    pub open spec fn cancels(self, new: Self, id: u64, unread: bool, step: CancelStep<C>) -> bool {
        let q = find(self.queue, id, 0);
        let f = find(self.inflight, id, 0);
        if q < self.queue.len() {
            let job = self.queue[q];
            let rest = DriverView { queue: self.queue.remove(q), ..self };
            &&& new == rest.released(job.kind@.handle())
            &&& step matches CancelStep::Finished(finish) && rest.finishes(
                job@,
                Err(cancelled_spec(self.errno)),
                unread,
                finish,
            )
        } else if f < self.inflight.len() {
            let job = self.inflight[f];
            &&& step == CancelStep::<C>::Abort { index: f as usize, fd: job.kind@.fd() }
            &&& new == DriverView {
                inflight: self.inflight.update(f, Job { cancelled: true, ..job }),
                ..self
            }
        } else if self.pending_opens.contains(id) {
            &&& step == CancelStep::<C>::AtOpen
            &&& new == DriverView { cancelled_opens: self.cancelled_opens.insert(id), ..self }
        } else {
            &&& step == CancelStep::<C>::Unknown
            &&& new == self
        }
    }

    /// Whether no job is queued or at the kernel.
    pub open spec fn idle(self) -> bool {
        self.inflight.len() == 0 && self.queue.len() == 0 && self.submitting is None
    }

    /// What the loop waits for before the next pass: nothing while there are
    /// jobs; else whatever can still bring some, and the exit when nothing can.
    pub open spec fn waits(self) -> Wait {
        if !self.idle() {
            Wait::Busy
        } else if self.disconnected {
            if self.pending_opens == Set::<u64>::empty() {
                Wait::Exit
            } else {
                Wait::Opened
            }
        } else if self.helpers_gone {
            Wait::Submission
        } else {
            Wait::Either
        }
    }

    /// What a chunk of `job`, a job out of the lists, leads to: the job is
    /// done; or it was cancelled meanwhile and settles so; or it goes to the
    /// front of the queue for its next chunk.
    pub open spec fn advances(
        self,
        new: Self,
        job: Job<'a, C>,
        chunk: Chunk,
        unread: bool,
        after: AfterChunk<C>,
    ) -> bool {
        match job.kind@.settles(chunk.n, chunk.bytes@, chunk.stat) {
            Some(result) => {
                &&& new == self.released(job.kind@.handle())
                &&& after matches AfterChunk::Finished(finish) && self.finishes(
                    job@,
                    result,
                    unread,
                    finish,
                )
            },
            None => if job.cancelled {
                &&& new == self.released(job.kind@.handle())
                &&& after matches AfterChunk::Finished(finish) && self.finishes(
                    job@,
                    Err(cancelled_spec(self.errno)),
                    unread,
                    finish,
                )
            } else {
                &&& after == AfterChunk::<C>::Requeued
                &&& new.queue.len() == self.queue.len() + 1
                &&& new.queue.skip(1) == self.queue
                &&& new.queue[0]@ == JobView {
                    kind: job.kind@.goes_on(chunk.n, chunk.bytes@),
                    ..job@
                }
                &&& new == DriverView { queue: new.queue, ..self }
            },
        }
    }

    /// What a message does: an operation, or a cancel request.
    pub open spec fn takes_message(
        self,
        new: Self,
        msg: Msg<'a, C>,
        unread: bool,
        stat: Result<Stat, Error>,
        after: AfterMsg<'a, C>,
    ) -> bool {
        let woken = DriverView { progress: true, ..self };
        match msg {
            Msg::Submit { id, op, cb } => after matches AfterMsg::Op(effect) && woken.handles(
                new,
                id,
                op,
                cb,
                unread,
                stat,
                effect,
            ),
            Msg::Cancel { id } => after matches AfterMsg::Cancel(step) && woken.cancels(
                new,
                id,
                unread,
                step,
            ),
        }
    }

    /// The first job of the queue goes to the kernel, while that takes more
    /// requests.
    pub open spec fn starts_next(self, new: Self, call: Option<Transfer>) -> bool {
        if self.inflight.len() < self.max_inflight && self.queue.len() > 0 {
            &&& call == Some(self.queue[0].kind@.transfer())
            &&& new == DriverView {
                queue: self.queue.skip(1),
                submitting: Some(self.queue[0]),
                ..self
            }
        } else {
            call is None && new == self
        }
    }

    /// What the call to the kernel leads to, accepted or refused.
    pub open spec fn launches(
        self,
        new: Self,
        accepted: Result<(), i32>,
        unread: bool,
        after: AfterSubmit<C>,
    ) -> bool {
        let job = self.submitting->0;
        let rest = DriverView { submitting: None, ..self };
        match accepted {
            Ok(()) => {
                &&& after == AfterSubmit::<C>::Inflight
                &&& new == DriverView { inflight: rest.inflight.push(job), ..rest }
            },
            Err(code) => if code == self.errno.again {
                if self.inflight.len() == 0 {
                    &&& after == AfterSubmit::<C>::RunSync
                    &&& new == self
                } else {
                    &&& after == AfterSubmit::<C>::Full
                    &&& new == DriverView { queue: seq![job] + rest.queue, ..rest }
                }
            } else {
                &&& new == rest.released(job.kind@.handle())
                &&& after matches AfterSubmit::Finished(finish) && rest.finishes(
                    job@,
                    Err(Error::Os(code)),
                    unread,
                    finish,
                )
            },
        }
    }

    /// What a blocking call leads to: the job is done, or stays for the next
    /// one.
    pub open spec fn blocks(
        self,
        new: Self,
        moved: Result<Chunk, i32>,
        unread: bool,
        finished: Option<Finish<C>>,
    ) -> bool {
        let job = self.submitting->0;
        let rest = DriverView { submitting: None, ..self };
        let result = match moved {
            Ok(chunk) => job.kind@.settles(chunk.n, chunk.bytes@, chunk.stat),
            Err(code) => Some(Err(Error::Os(code))),
        };
        match result {
            Some(result) => {
                &&& new == rest.released(job.kind@.handle())
                &&& finished matches Some(finish) && rest.finishes(job@, result, unread, finish)
            },
            None => {
                &&& finished is None
                &&& new.submitting matches Some(next) && next@ == (JobView {
                    kind: job.kind@.goes_on(moved->Ok_0.n, moved->Ok_0.bytes@),
                    ..job@
                }) && new == (DriverView { submitting: Some(next), ..rest })
            },
        }
    }

    /// What the kernel's word on the request at `index` in flight leads to.
    pub open spec fn reaps(
        self,
        new: Self,
        index: usize,
        err: i32,
        chunk: Chunk,
        unread: bool,
        after: AfterReap<C>,
    ) -> bool {
        if err == self.errno.in_progress {
            after == AfterReap::<C>::Running && new == self
        } else {
            let job = self.inflight[index as int];
            let rest = DriverView {
                inflight: self.inflight.update(index as int, self.inflight.last()).drop_last(),
                progress: true,
                ..self
            };
            if err == 0 {
                match after {
                    AfterReap::Running => false,
                    AfterReap::Requeued => rest.advances(
                        new,
                        job,
                        chunk,
                        unread,
                        AfterChunk::Requeued,
                    ),
                    AfterReap::Finished(finish) => rest.advances(
                        new,
                        job,
                        chunk,
                        unread,
                        AfterChunk::Finished(finish),
                    ),
                }
            } else {
                &&& new == rest.released(job.kind@.handle())
                &&& after matches AfterReap::Finished(finish) && rest.finishes(
                    job@,
                    Err(Error::Os(err)),
                    unread,
                    finish,
                )
            }
        }
    }
}

/// The wait for completions after a pass: the least there is when something
/// moved, twice the last one up to the cap when nothing did.
pub open spec fn next_suspend(suspend_ns: i64, progress: bool) -> i64 {
    if progress {
        SUSPEND_MIN_NS
    } else if suspend_ns * 2 < SUSPEND_MAX_NS {
        (suspend_ns * 2) as i64
    } else {
        SUSPEND_MAX_NS
    }
}

/// The first place from `from` on where a job with the id stands, or the end.
pub open spec fn find<'a, C>(jobs: Seq<Job<'a, C>>, id: u64, from: int) -> int
    decreases jobs.len() - from,
{
    if from >= jobs.len() {
        jobs.len() as int
    } else if jobs[from].id == id {
        from
    } else {
        find(jobs, id, from + 1)
    }
}

/// The room to begin a read to end with: what the file is said to hold from
/// `pos` on, and one byte at least.
pub open spec fn room_to_end(stat: Result<Stat, Error>, pos: u64) -> usize {
    let rest = match reported_size(stat) {
        Ok(size) => size.saturating_sub(pos) as usize,
        Err(_) => 0usize,
    };
    if rest < 1 {
        1
    } else {
        rest
    }
}

/// A job put at the end of the queue keeps the driver in order, and the
/// driver then holds its callback.
pub proof fn lemma_enqueue<'a, C>(v: DriverView<'a, C>, job: Job<'a, C>)
    requires
        v.wf(),
        v.load() < usize::MAX,
        v.sound(job),
    ensures
        ({
            let new = DriverView {
                queue: v.queue.push(job),
                files: v.with_user(job.kind@.handle()),
                ..v
            };
            &&& new.wf()
            &&& new.waiting() == v.waiting().insert(job.cb)
        }),
        job.kind@.handle() matches Some(h) ==> v.files[h].ops < usize::MAX,
{
    let new = DriverView {
        queue: v.queue.push(job),
        files: v.with_user(job.kind@.handle()),
        ..v
    };
    lemma_push(v.queue, job);
    assert forall|h: u64| #[trigger] new.files.contains_key(h) implies {
        &&& new.files[h].ops == new.uses(h) + uses(Seq::<Job<'a, C>>::empty(), h)
        &&& new.files[h].closing is Some ==> new.files[h].ops > 0
    } by {
        assert(v.files.contains_key(h));
        lemma_bounds(v.queue, h);
        lemma_bounds(v.inflight, h);
        lemma_bounds(in_slot(v.submitting), h);
        assert(uses(v.queue.push(job), h) == uses(v.queue, h) + if job.kind@.handle() == Some(h) {
            1nat
        } else {
            0nat
        });
    }
    if let Some(h) = job.kind@.handle() {
        lemma_bounds(v.queue, h);
        lemma_bounds(v.inflight, h);
        lemma_bounds(in_slot(v.submitting), h);
        lemma_closings_differ(v.files, new.files, h, v.next_id as nat);
        assert(closing_of(v.files, h) == closing_of(new.files, h));
        let c = at_most_one(closing_of(v.files, h));
        let n = v.next_id as nat;
        assert(closings(v.files, n) =~= closings(v.files, n).add(c).sub(c));
        assert(closings(new.files, n) =~= closings(new.files, n).add(c).sub(c));
    }
    assert forall|i: int| 0 <= i < new.queue.len() implies new.sound(#[trigger] new.queue[i]) by {
        if i < v.queue.len() {
            assert(v.sound(v.queue[i]));
        }
    }
    assert forall|i: int| 0 <= i < new.inflight.len() implies new.sound(
        #[trigger] new.inflight[i],
    ) by {
        assert(v.sound(v.inflight[i]));
    }
    assert(new.waiting() =~= v.waiting().insert(job.cb));
}

/// A job that is done leaves the driver in order; the close that waited for
/// it, if any, is no longer waiting.
pub proof fn lemma_release<'a, C>(v: DriverView<'a, C>, job: Job<'a, C>)
    requires
        v.inv(seq![job]),
    ensures
        v.released(job.kind@.handle()).wf(),
        job.kind@.handle() matches Some(h) ==> v.files.contains_key(h) && v.files[h].ops > 0,
        v.waiting() == v.released(job.kind@.handle()).waiting().add(
            match job.kind@.handle() {
                Some(h) if v.files[h].ops == 1 => at_most_one(v.files[h].closing),
                _ => Multiset::empty(),
            },
        ),
{
    assert(v.rooted(seq![job][0]));
    let handle = job.kind@.handle();
    let new = v.released(handle);
    lemma_single(job);
    assert forall|h: u64| #[trigger] new.files.contains_key(h) implies {
        &&& new.files[h].ops == new.uses(h) + uses(Seq::<Job<'a, C>>::empty(), h)
        &&& new.files[h].closing is Some ==> new.files[h].ops > 0
    } by {
        assert(v.files.contains_key(h));
        assert(uses(seq![job], h) == if handle == Some(h) {
            1nat
        } else {
            0nat
        });
    }
    match handle {
        Some(h) => {
            assert(uses(seq![job], h) == 1);
            assert(v.files.contains_key(h));
            lemma_closings_differ(v.files, new.files, h, v.next_id as nat);
            let c1 = at_most_one(closing_of(v.files, h));
            let c2 = at_most_one(closing_of(new.files, h));
            let n = v.next_id as nat;
            assert(closings(v.files, n) =~= closings(v.files, n).add(c2).sub(c2));
            assert(closings(new.files, n) =~= closings(new.files, n).add(c1).sub(c1));
            assert(closings(v.files, n).add(c2) == closings(new.files, n).add(c1));
            if new.files.contains_key(h) {
                assert(c1 == c2);
                assert(closings(v.files, n) == closings(new.files, n));
            } else {
                assert(c2 == Multiset::<C>::empty());
                assert(closings(v.files, n).add(c2) =~= closings(v.files, n));
            }
            lemma_release_sound(v, new, h);
        },
        None => {
            assert(new == v);
        },
    }
    assert(v.waiting() =~= new.waiting().add(
        match handle {
            Some(h) if v.files[h].ops == 1 => at_most_one(v.files[h].closing),
            _ => Multiset::empty(),
        },
    ));
}

/// The other jobs keep their handles when one job on `h` is done: a handle is
/// closed only when no job works on it any more.
pub proof fn lemma_release_sound<'a, C>(v: DriverView<'a, C>, new: DriverView<'a, C>, h: u64)
    requires
        v.files.contains_key(h),
        v.files[h].ops == v.uses(h) + 1,
        new == v.released(Some(h)),
        forall|i: int| 0 <= i < v.queue.len() ==> v.sound(#[trigger] v.queue[i]),
        forall|i: int| 0 <= i < v.inflight.len() ==> v.sound(#[trigger] v.inflight[i]),
        v.submitting matches Some(job) ==> v.sound(job),
    ensures
        forall|i: int| 0 <= i < v.queue.len() ==> new.sound(#[trigger] v.queue[i]),
        forall|i: int| 0 <= i < v.inflight.len() ==> new.sound(#[trigger] v.inflight[i]),
        v.submitting matches Some(job) ==> new.sound(job),
{
    lemma_bounds(v.queue, h);
    lemma_bounds(v.inflight, h);
    if let Some(job) = v.submitting {
        lemma_single(job);
        assert(uses(in_slot(v.submitting), h) == if job.kind@.handle() == Some(h) {
            1nat
        } else {
            0nat
        });
    }
    assert forall|i: int| 0 <= i < v.queue.len() implies new.sound(#[trigger] v.queue[i]) by {
        assert(v.sound(v.queue[i]));
    }
    assert forall|i: int| 0 <= i < v.inflight.len() implies new.sound(#[trigger] v.inflight[i]) by {
        assert(v.sound(v.inflight[i]));
    }
}

/// No job works on a handle that counts none.
pub proof fn lemma_idle_handle<'a, C>(v: DriverView<'a, C>, h: u64)
    requires
        v.wf(),
        v.files.contains_key(h),
        v.files[h].ops == 0,
    ensures
        forall|i: int| 0 <= i < v.queue.len() ==> (#[trigger] v.queue[i]).kind@.handle() != Some(h),
        forall|i: int|
            0 <= i < v.inflight.len() ==> (#[trigger] v.inflight[i]).kind@.handle() != Some(h),
        v.submitting matches Some(job) ==> job.kind@.handle() != Some(h),
{
    lemma_bounds(v.queue, h);
    lemma_bounds(v.inflight, h);
    if let Some(job) = v.submitting {
        lemma_single(job);
        assert(uses(seq![job], h) == if job.kind@.handle() == Some(h) {
            1nat
        } else {
            0nat
        });
    }
}

/// A job taken out of the queue is held, and its callback with it.
pub proof fn lemma_hold_queued<'a, C>(v: DriverView<'a, C>, i: int)
    requires
        v.wf(),
        0 <= i < v.queue.len(),
    ensures
        ({
            let new = DriverView { queue: v.queue.remove(i), ..v };
            &&& new.inv(seq![v.queue[i]])
            &&& v.waiting() == new.waiting().insert(v.queue[i].cb)
        }),
{
    let job = v.queue[i];
    let new = DriverView { queue: v.queue.remove(i), ..v };
    lemma_remove(v.queue, i);
    lemma_single(job);
    assert forall|h: u64| #[trigger] new.files.contains_key(h) implies new.files[h].ops
        == new.uses(h) + uses(seq![job], h) by {
        assert(v.files[h].ops == v.uses(h) + uses(Seq::<Job<'a, C>>::empty(), h));
        assert(uses(seq![job], h) == if job.kind@.handle() == Some(h) {
            1nat
        } else {
            0nat
        });
    }
    assert forall|k: int| 0 <= k < new.queue.len() implies new.sound(#[trigger] new.queue[k]) by {
        assert(v.sound(v.queue[k]));
        assert(k + 1 < v.queue.len());
        assert(v.sound(v.queue[k + 1]));
    }
    assert forall|k: int| 0 <= k < new.inflight.len() implies new.sound(
        #[trigger] new.inflight[k],
    ) by {
        assert(v.sound(v.inflight[k]));
    }
    assert(v.waiting() =~= new.waiting().insert(job.cb));
}

/// A job taken from flight is held, and its callback with it.
pub proof fn lemma_hold_inflight<'a, C>(v: DriverView<'a, C>, i: int)
    requires
        v.wf(),
        0 <= i < v.inflight.len(),
    ensures
        ({
            let new = DriverView {
                inflight: v.inflight.update(i, v.inflight.last()).drop_last(),
                ..v
            };
            &&& new.inv(seq![v.inflight[i]])
            &&& v.waiting() == new.waiting().insert(v.inflight[i].cb)
        }),
{
    let job = v.inflight[i];
    let new = DriverView { inflight: v.inflight.update(i, v.inflight.last()).drop_last(), ..v };
    lemma_swap_remove(v.inflight, i);
    lemma_single(job);
    assert forall|h: u64| #[trigger] new.files.contains_key(h) implies new.files[h].ops
        == new.uses(h) + uses(seq![job], h) by {
        assert(v.files[h].ops == v.uses(h) + uses(Seq::<Job<'a, C>>::empty(), h));
        assert(uses(seq![job], h) == if job.kind@.handle() == Some(h) {
            1nat
        } else {
            0nat
        });
    }
    assert forall|k: int| 0 <= k < new.queue.len() implies new.sound(#[trigger] new.queue[k]) by {
        assert(v.sound(v.queue[k]));
    }
    assert forall|k: int| 0 <= k < new.inflight.len() implies new.sound(
        #[trigger] new.inflight[k],
    ) by {
        assert(v.sound(v.inflight[k]));
        assert(v.sound(v.inflight[v.inflight.len() - 1]));
    }
    assert(v.waiting() =~= new.waiting().insert(job.cb));
}

/// The job whose call was being made is held, and its callback with it.
pub proof fn lemma_hold_submitting<'a, C>(v: DriverView<'a, C>)
    requires
        v.wf(),
        v.submitting is Some,
    ensures
        ({
            let new = DriverView { submitting: None, ..v };
            &&& new.inv(seq![v.submitting->0])
            &&& v.waiting() == new.waiting().insert(v.submitting->0.cb)
        }),
{
    let job = v.submitting->0;
    let new = DriverView { submitting: None, ..v };
    lemma_single(job);
    assert forall|h: u64| #[trigger] new.files.contains_key(h) implies new.files[h].ops
        == new.uses(h) + uses(seq![job], h) by {
        assert(v.files[h].ops == v.uses(h) + uses(Seq::<Job<'a, C>>::empty(), h));
    }
    assert forall|k: int| 0 <= k < new.queue.len() implies new.sound(#[trigger] new.queue[k]) by {
        assert(v.sound(v.queue[k]));
    }
    assert forall|k: int| 0 <= k < new.inflight.len() implies new.sound(
        #[trigger] new.inflight[k],
    ) by {
        assert(v.sound(v.inflight[k]));
    }
    assert(v.waiting() =~= new.waiting().insert(job.cb));
}

/// A held job that changed in a chunk is held as it was: it works on the same
/// handle and descriptor.
pub proof fn lemma_exchange<'a, C>(v: DriverView<'a, C>, held: Job<'a, C>, job: Job<'a, C>)
    requires
        v.inv(seq![held]),
        job.kind@.handle() == held.kind@.handle(),
        job.kind@.fd() == held.kind@.fd(),
    ensures
        v.inv(seq![job]),
{
    assert(v.rooted(seq![held][0]));
    lemma_single(held);
    lemma_single(job);
    assert forall|h: u64| #[trigger] v.files.contains_key(h) implies v.files[h].ops == v.uses(h)
        + uses(seq![job], h) by {
        assert(v.files[h].ops == v.uses(h) + uses(seq![held], h));
        assert(uses(seq![held], h) == if held.kind@.handle() == Some(h) {
            1nat
        } else {
            0nat
        });
        assert(uses(seq![job], h) == if job.kind@.handle() == Some(h) {
            1nat
        } else {
            0nat
        });
    }
}

/// A held job, or one that took its place after a chunk, goes to the front of
/// the queue.
pub proof fn lemma_requeue<'a, C>(v: DriverView<'a, C>, held: Job<'a, C>, job: Job<'a, C>)
    requires
        v.inv(seq![held]),
        job.wf(),
        job.kind@.handle() == held.kind@.handle(),
        job.kind@.fd() == held.kind@.fd(),
    ensures
        ({
            let new = DriverView { queue: seq![job] + v.queue, ..v };
            &&& new.wf()
            &&& new.waiting() == v.waiting().insert(job.cb)
        }),
{
    let new = DriverView { queue: seq![job] + v.queue, ..v };
    assert(v.rooted(seq![held][0]));
    lemma_push_front(v.queue, job);
    lemma_single(held);
    assert forall|h: u64| #[trigger] new.files.contains_key(h) implies new.files[h].ops
        == new.uses(h) + uses(Seq::<Job<'a, C>>::empty(), h) by {
        assert(v.files[h].ops == v.uses(h) + uses(seq![held], h));
        assert(uses(seq![held], h) == if held.kind@.handle() == Some(h) {
            1nat
        } else {
            0nat
        });
        assert(uses(seq![job] + v.queue, h) == uses(v.queue, h) + if job.kind@.handle() == Some(h) {
            1nat
        } else {
            0nat
        });
    }
    assert forall|k: int| 0 <= k < new.queue.len() implies new.sound(#[trigger] new.queue[k]) by {
        if k > 0 {
            assert(new.queue[k] == v.queue[k - 1]);
            assert(v.sound(v.queue[k - 1]));
        }
    }
    assert forall|k: int| 0 <= k < new.inflight.len() implies new.sound(
        #[trigger] new.inflight[k],
    ) by {
        assert(v.sound(v.inflight[k]));
    }
    assert(new.waiting() =~= v.waiting().insert(job.cb));
}

/// A held job goes into flight.
pub proof fn lemma_launch<'a, C>(v: DriverView<'a, C>, job: Job<'a, C>)
    requires
        v.inv(seq![job]),
        job.wf(),
        v.submitting is None,
        v.inflight.len() < v.max_inflight,
    ensures
        ({
            let new = DriverView { inflight: v.inflight.push(job), ..v };
            &&& new.wf()
            &&& new.waiting() == v.waiting().insert(job.cb)
        }),
{
    let new = DriverView { inflight: v.inflight.push(job), ..v };
    assert(v.rooted(seq![job][0]));
    lemma_push(v.inflight, job);
    lemma_single(job);
    assert forall|h: u64| #[trigger] new.files.contains_key(h) implies new.files[h].ops
        == new.uses(h) + uses(Seq::<Job<'a, C>>::empty(), h) by {
        assert(v.files[h].ops == v.uses(h) + uses(seq![job], h));
        assert(uses(v.inflight.push(job), h) == uses(v.inflight, h) + uses(seq![job], h));
    }
    assert forall|k: int| 0 <= k < new.queue.len() implies new.sound(#[trigger] new.queue[k]) by {
        assert(v.sound(v.queue[k]));
    }
    assert forall|k: int| 0 <= k < new.inflight.len() implies new.sound(
        #[trigger] new.inflight[k],
    ) by {
        if k < v.inflight.len() {
            assert(v.sound(v.inflight[k]));
        }
    }
    assert(new.waiting() =~= v.waiting().insert(job.cb));
}

/// A held job, or one that took its place after a chunk, goes to the slot of
/// the job whose call is being made.
pub proof fn lemma_slot<'a, C>(v: DriverView<'a, C>, held: Job<'a, C>, job: Job<'a, C>)
    requires
        v.inv(seq![held]),
        v.submitting is None,
        v.inflight.len() < v.max_inflight,
        job.wf(),
        job.kind@.handle() == held.kind@.handle(),
        job.kind@.fd() == held.kind@.fd(),
    ensures
        ({
            let new = DriverView { submitting: Some(job), ..v };
            &&& new.wf()
            &&& new.waiting() == v.waiting().insert(job.cb)
        }),
{
    let new = DriverView { submitting: Some(job), ..v };
    assert(v.rooted(seq![held][0]));
    lemma_single(job);
    lemma_single(held);
    assert forall|h: u64| #[trigger] new.files.contains_key(h) implies new.files[h].ops
        == new.uses(h) + uses(Seq::<Job<'a, C>>::empty(), h) by {
        assert(v.files[h].ops == v.uses(h) + uses(seq![held], h));
        assert(uses(seq![held], h) == if held.kind@.handle() == Some(h) {
            1nat
        } else {
            0nat
        });
        assert(uses(seq![job], h) == if job.kind@.handle() == Some(h) {
            1nat
        } else {
            0nat
        });
    }
    assert forall|k: int| 0 <= k < new.queue.len() implies new.sound(#[trigger] new.queue[k]) by {
        assert(v.sound(v.queue[k]));
    }
    assert forall|k: int| 0 <= k < new.inflight.len() implies new.sound(
        #[trigger] new.inflight[k],
    ) by {
        assert(v.sound(v.inflight[k]));
    }
    assert(new.waiting() =~= v.waiting().insert(job.cb));
}

/// Marking a job in flight as cancelled changes nothing else.
pub proof fn lemma_mark<'a, C>(v: DriverView<'a, C>, i: int)
    requires
        v.wf(),
        0 <= i < v.inflight.len(),
    ensures
        ({
            let job = Job { cancelled: true, ..v.inflight[i] };
            let new = DriverView { inflight: v.inflight.update(i, job), ..v };
            &&& new.wf()
            &&& new.waiting() == v.waiting()
        }),
{
    let job = Job { cancelled: true, ..v.inflight[i] };
    let new = DriverView { inflight: v.inflight.update(i, job), ..v };
    lemma_update(v.inflight, i, job);
    assert forall|h: u64| #[trigger] new.files.contains_key(h) implies new.files[h].ops
        == new.uses(h) + uses(Seq::<Job<'a, C>>::empty(), h) by {
        assert(v.files[h].ops == v.uses(h) + uses(Seq::<Job<'a, C>>::empty(), h));
        assert(uses(v.inflight.update(i, job), h) == uses(v.inflight, h));
    }
    assert forall|k: int| 0 <= k < new.inflight.len() implies new.sound(
        #[trigger] new.inflight[k],
    ) by {
        assert(v.sound(v.inflight[k]));
        assert(v.sound(v.inflight[i]));
    }
    assert forall|k: int| 0 <= k < new.queue.len() implies new.sound(#[trigger] new.queue[k]) by {
        assert(v.sound(v.queue[k]));
    }
}

/// No close waits where no handle has a job.
pub proof fn lemma_no_closings<C>(files: Map<u64, FileEntry<C>>, below: nat)
    requires
        below <= u64::MAX,
        forall|h: u64| #[trigger] files.contains_key(h) ==> files[h].closing is None,
    ensures
        closings(files, below) == Multiset::<C>::empty(),
    decreases below,
{
    if below > 0 {
        lemma_no_closings(files, (below - 1) as nat);
        assert(closing_of(files, (below - 1) as u64) is None);
        assert(closings(files, below) =~= Multiset::<C>::empty());
    }
}

/// A driver without jobs holds no callback: every op it took has settled, or
/// is out at its open. It never exits with one unsettled.
pub proof fn idle_holds_no_callback<'a, C>(v: DriverView<'a, C>)
    requires
        v.wf(),
        v.idle(),
    ensures
        v.waiting() == Multiset::<C>::empty(),
{
    assert forall|h: u64| #[trigger] v.files.contains_key(h) implies v.files[h].closing is None by {
        assert(v.uses(h) == 0);
    }
    lemma_no_closings(v.files, v.next_id as nat);
    assert(v.waiting() =~= Multiset::<C>::empty());
}

} // verus!
