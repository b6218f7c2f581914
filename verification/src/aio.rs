//! The queueing driver of the asynchronous-I/O backend: a handle table, a
//! queue of jobs, the jobs in flight at the kernel, and the opens that helper
//! threads run.
//!
//! The driver decides and never blocks. What it asks for comes back as an
//! [`Effect`], a [`Finish`] or a [`Transfer`]; the loop around it performs
//! that and reports the outcome by the next call. Whenever jobs may wait, the
//! loop drains [`Driver::next_job`].

use std::collections::{HashMap, HashSet, VecDeque};

use vstd::multiset::Multiset;
use vstd::prelude::*;

use crate::channel::Polled;
use crate::effect::{
    carried, AfterChunk, AfterMsg, AfterOpen, AfterReap, AfterReturn, AfterSubmit, CancelStep,
    Chunk, DeferredClose, Effect, FileEntry, Finish, HelperJob, OpenJob, Opened, OwnedClose,
    PendingOpen, Settlement, Wait,
};
use crate::error::{bad_handle, cancelled_error, Error};
use crate::event::Event;
use crate::host::Errno;
use crate::job::{
    fd_size, step, FsyncJob, Job, JobKind, JobView, ReadBuf, ReadJob, Stat, Step, SyncCall,
    Transfer, Want, WriteJob,
};
use crate::limits::{SUSPEND_MAX_NS, SUSPEND_MIN_NS};
use crate::op::{outcome, Dest, Msg, Op, OpenSpec, Reply, ReplyView};
use crate::state::{
    closing_of, closings, find, idle_holds_no_callback, lemma_closings_differ, lemma_enqueue,
    lemma_exchange, lemma_hold_inflight, lemma_hold_queued, lemma_hold_submitting,
    lemma_idle_handle, lemma_launch, lemma_mark, lemma_release, lemma_requeue, lemma_slot,
    next_suspend, DriverView,
};
use crate::tally::{in_slot, lemma_single, lemma_unused, uses};

verus! {

broadcast use vstd::std_specs::hash::group_hash_axioms;

/// The driver's state.
#[verifier::reject_recursive_types(C)]
pub struct Driver<'a, C> {
    pub errno: Errno,
    pub pending_opens: HashSet<u64>,
    pub cancelled_opens: HashSet<u64>,
    pub helpers_gone: bool,
    pub files: HashMap<u64, FileEntry<C>>,
    pub next_id: u64,
    pub inflight: Vec<Job<'a, C>>,
    /// The job whose call to the kernel is being made.
    pub submitting: Option<Job<'a, C>>,
    pub queue: VecDeque<Job<'a, C>>,
    pub max_inflight: usize,
    pub disconnected: bool,
    pub suspend_ns: i64,
    pub progress: bool,
}

impl<'a, C> View for Driver<'a, C> {
    type V = DriverView<'a, C>;

    open spec fn view(&self) -> DriverView<'a, C> {
        DriverView {
            errno: self.errno,
            pending_opens: self.pending_opens@,
            cancelled_opens: self.cancelled_opens@,
            helpers_gone: self.helpers_gone,
            files: self.files@,
            next_id: self.next_id,
            inflight: self.inflight@,
            submitting: self.submitting,
            queue: self.queue@,
            max_inflight: self.max_inflight,
            disconnected: self.disconnected,
            suspend_ns: self.suspend_ns,
            progress: self.progress,
        }
    }
}

impl<'a, C> Driver<'a, C> {
    /// A driver with no files and no jobs that keeps up to `max_inflight`
    /// requests at the kernel.
    pub fn new(max_inflight: usize, errno: Errno) -> (driver: Self)
        requires
            errno.wf(),
        ensures
            driver@.wf(),
            driver@ == (DriverView {
                errno,
                pending_opens: Set::empty(),
                cancelled_opens: Set::empty(),
                helpers_gone: false,
                files: Map::<u64, FileEntry<C>>::empty(),
                next_id: 1,
                inflight: Seq::empty(),
                submitting: None,
                queue: Seq::empty(),
                max_inflight,
                disconnected: false,
                suspend_ns: SUSPEND_MIN_NS,
                progress: false,
            }),
            driver@.waiting() == Multiset::<C>::empty(),
    {
        let driver = Driver {
            errno,
            pending_opens: HashSet::new(),
            cancelled_opens: HashSet::new(),
            helpers_gone: false,
            files: HashMap::new(),
            next_id: 1,
            inflight: Vec::new(),
            submitting: None,
            queue: VecDeque::new(),
            max_inflight,
            disconnected: false,
            suspend_ns: SUSPEND_MIN_NS,
            progress: false,
        };
        proof {
            reveal_with_fuel(closings, 2);
            assert(driver@.waiting() =~= Multiset::<C>::empty());
        }
        driver
    }

    /// Whether anything is waiting on this thread, `unread` telling whether
    /// the submission channel holds messages. While something is, a blocking
    /// call on this thread holds all of it up.
    pub fn has_backlog(&self, unread: bool) -> (yes: bool)
        ensures
            yes == self@.backlog(unread),
    {
        unread || self.queue.len() > 0 || !self.pending_opens.is_empty()
    }

    /// The descriptor of a handle that takes operations.
    pub fn with_fd(&self, handle: u64) -> (fd: Result<i32, Error>)
        ensures
            fd == self@.fd_of(handle),
    {
        match self.files.get(&handle) {
            None => Err(bad_handle()),
            Some(entry) => if entry.closing.is_some() {
                Err(bad_handle())
            } else {
                Ok(entry.fd)
            },
        }
    }

    /// Take ownership of an open descriptor as a new handle.
    pub fn register(&mut self, fd: i32, size: u64) -> (reply: Reply)
        requires
            old(self)@.wf(),
            old(self)@.next_id < u64::MAX,
        ensures
            final(self)@.wf(),
            reply@ == (ReplyView::Handle { id: old(self)@.next_id, size, fd: fd as i64 }),
            !old(self)@.files.contains_key(old(self)@.next_id),
            final(self)@ == (DriverView {
                next_id: (old(self)@.next_id + 1) as u64,
                files: old(self)@.files.insert(
                    old(self)@.next_id,
                    FileEntry { fd, ops: 0, closing: None },
                ),
                ..old(self)@
            }),
            final(self)@.waiting() == old(self)@.waiting(),
            old(self)@.takes(final(self)@, Event::Registered { fd, size, reply }),
    {
        let id: u64 = self.next_id;
        self.next_id = id + 1;
        self.files.insert(id, FileEntry { fd, ops: 0, closing: None });
        proof {
            let before = old(self)@;
            let after = self@;
            assert forall|i: int| 0 <= i < before.queue.len() implies before.queue[i].kind@.handle()
                != Some(id) by {
                assert(before.sound(before.queue[i]));
            }
            assert forall|i: int|
                0 <= i < before.inflight.len() implies before.inflight[i].kind@.handle() != Some(
                id,
            ) by {
                assert(before.sound(before.inflight[i]));
            }
            lemma_unused(before.queue, id);
            lemma_unused(before.inflight, id);
            if let Some(job) = before.submitting {
                lemma_single(job);
            }
            assert(uses(in_slot(before.submitting), id) == 0);
            assert(uses(Seq::<Job<'a, C>>::empty(), id) == 0);
            lemma_closings_differ(before.files, after.files, id, before.next_id as nat);
            assert(closings(after.files, after.next_id as nat) =~= closings(
                before.files,
                before.next_id as nat,
            ));
            assert forall|i: int| 0 <= i < after.queue.len() implies after.sound(
                #[trigger] after.queue[i],
            ) by {
                assert(before.sound(before.queue[i]));
            }
            assert forall|i: int| 0 <= i < after.inflight.len() implies after.sound(
                #[trigger] after.inflight[i],
            ) by {
                assert(before.sound(before.inflight[i]));
            }
        }
        Reply::Handle { id, size, fd: fd as i64 }
    }

    /// Put a job at the end of the queue. Its handle, if it works on one,
    /// stays open at least until the job is done.
    pub fn enqueue(&mut self, id: u64, kind: JobKind<'a>, cb: C)
        requires
            old(self)@.wf(),
            old(self)@.load() < usize::MAX,
            kind@.wf(),
            kind@.handle() matches Some(h) ==> old(self)@.files.contains_key(h)
                && old(self)@.files[h].fd == kind@.fd(),
        ensures
            final(self)@.wf(),
            old(self)@.enqueued(
                final(self)@,
                JobView { id, cancelled: false, kind: kind@, cb },
            ),
            final(self)@.waiting() == old(self)@.waiting().insert(cb),
    {
        let job = Job { id, cancelled: false, kind, cb };
        proof {
            lemma_enqueue(self@, job);
        }
        if let Some(handle) = job.kind.handle() {
            if let Some(mut entry) = self.files.remove(&handle) {
                entry.ops = entry.ops + 1;
                self.files.insert(handle, entry);
            }
        }
        self.queue.push_back(job);
        proof {
            assert(self@.files =~= old(self)@.with_user(job.kind@.handle()));
            assert(self@.queue.drop_last() =~= old(self)@.queue);
        }
    }

    /// The end of a job that is in none of the driver's lists any more. Its
    /// own descriptor is closed; its handle counts one job less, and a close
    /// that waited for this job goes ahead.
    pub fn finish(&mut self, job: Job<'a, C>, result: Result<Reply, Error>, unread: bool) -> (finish:
        Finish<C>)
        requires
            old(self)@.inv(seq![job]),
        ensures
            final(self)@.wf(),
            final(self)@ == old(self)@.released(job.kind@.handle()),
            old(self)@.finishes(job@, outcome(result), unread, finish),
            final(self)@.waiting().add(finish.carried()) == old(self)@.waiting().insert(job.cb),
    {
        proof {
            lemma_release(self@, job);
        }
        let handle = job.kind.handle();
        let owned = if handle.is_none() {
            Some(OwnedClose { fd: job.kind.fd(), away: self.has_backlog(unread) })
        } else {
            None
        };
        let settled = Settlement { cb: job.cb, result };
        let mut deferred: Option<DeferredClose<C>> = None;
        if let Some(handle) = handle {
            if let Some(mut entry) = self.files.remove(&handle) {
                entry.ops = entry.ops - 1;
                if entry.ops == 0 && entry.closing.is_some() {
                    if let Some(cb) = entry.closing {
                        deferred = Some(DeferredClose { fd: entry.fd, cb });
                    }
                } else {
                    self.files.insert(handle, entry);
                }
            }
        }
        proof {
            assert(self@.files =~= old(self)@.released(job.kind@.handle()).files);
            let f = Finish { owned, settled, deferred };
            assert(self@.waiting().add(f.carried()) =~= old(self)@.waiting().insert(job.cb));
        }
        Finish { owned, settled, deferred }
    }

    /// Open on this thread when nothing else is waiting on it, so a lone op
    /// pays no extra hop; under a backlog hand the open to a helper thread
    /// and continue with the descriptor when it comes back.
    pub fn open_then(&mut self, job: OpenJob<'a, C>, unread: bool) -> (effect: Option<Effect<'a, C>>)
        requires
            old(self)@.wf(),
        ensures
            final(self)@.wf(),
            old(self)@.opens(final(self)@, job, unread, effect),
            final(self)@.waiting() == old(self)@.waiting(),
    {
        if !self.has_backlog(unread) {
            return Some(Effect::OpenHere(job));
        }
        self.pending_opens.insert(job.pending.id);
        Some(Effect::OpenAway(job))
    }

    /// No helper took the job: an open among them is no longer out, and runs
    /// on this thread.
    pub fn refused(&mut self, job: &HelperJob<'a, C>)
        requires
            old(self)@.wf(),
        ensures
            final(self)@.wf(),
            final(self)@ == old(self)@.without(*job),
            final(self)@.waiting() == old(self)@.waiting(),
    {
        if let HelperJob::Open(open) = job {
            self.pending_opens.remove(&open.pending.id);
            assert(self@.pending_opens =~= old(self)@.pending_opens.remove(open.pending.id));
        }
    }

    /// How a job went over to the helper threads: taken, or handed back to be
    /// run on this thread.
    pub fn handed(&mut self, sent: Result<(), HelperJob<'a, C>>) -> (back: Option<HelperJob<'a, C>>)
        requires
            old(self)@.wf(),
        ensures
            final(self)@.wf(),
            match sent {
                Ok(()) => back is None && final(self)@ == old(self)@,
                Err(job) => back == Some(job) && final(self)@ == old(self)@.without(job),
            },
            final(self)@.waiting() == old(self)@.waiting(),
            old(self)@.takes(final(self)@, Event::HandedOver { sent, back }),
    {
        match sent {
            Ok(()) => None,
            Err(job) => {
                self.refused(&job);
                Some(job)
            },
        }
    }

    /// What a look into the submission channel found.
    pub fn heard(&mut self, polled: Polled<Msg<'a, C>>) -> (msg: Option<Msg<'a, C>>)
        requires
            old(self)@.wf(),
        ensures
            final(self)@.wf(),
            match polled {
                Polled::Item(m) => msg == Some(m) && final(self)@ == old(self)@,
                Polled::Empty => msg is None && final(self)@ == old(self)@,
                Polled::Disconnected => msg is None && final(self)@ == (DriverView {
                    disconnected: true,
                    ..old(self)@
                }),
            },
            final(self)@.waiting() == old(self)@.waiting(),
    {
        match polled {
            Polled::Item(msg) => Some(msg),
            Polled::Empty => None,
            Polled::Disconnected => {
                self.lose_submitters();
                None
            },
        }
    }

    /// What a look into the channel of opened descriptors found.
    pub fn heard_back(&mut self, polled: Polled<Opened<'a, C>>) -> (opened: Option<Opened<'a, C>>)
        requires
            old(self)@.wf(),
        ensures
            final(self)@.wf(),
            match polled {
                Polled::Item(o) => opened == Some(o) && final(self)@ == old(self)@,
                Polled::Empty => opened is None && final(self)@ == old(self)@,
                Polled::Disconnected => opened is None && final(self)@ == (DriverView {
                    helpers_gone: true,
                    pending_opens: Set::empty(),
                    ..old(self)@
                }),
            },
            final(self)@.waiting() == old(self)@.waiting(),
    {
        match polled {
            Polled::Item(opened) => Some(opened),
            Polled::Empty => None,
            Polled::Disconnected => {
                self.lose_helpers();
                None
            },
        }
    }

    /// Close a handle, once the jobs on it are done.
    pub fn close(&mut self, handle: u64, cb: C) -> (effect: Option<Effect<'a, C>>)
        requires
            old(self)@.wf(),
        ensures
            final(self)@.wf(),
            old(self)@.closes(final(self)@, handle, cb, effect),
            final(self)@.waiting().add(carried(effect)) == old(self)@.waiting().insert(cb),
    {
        match self.with_fd(handle) {
            Err(e) => Some(Effect::Settle(Settlement { cb, result: Err(e) })),
            Ok(fd) => {
                let mut effect: Option<Effect<'a, C>> = None;
                if let Some(mut entry) = self.files.remove(&handle) {
                    if entry.ops > 0 {
                        entry.closing = Some(cb);
                        self.files.insert(handle, entry);
                        assert(self@.files =~= old(self)@.files.insert(
                            handle,
                            FileEntry { closing: Some(cb), ..old(self)@.files[handle] },
                        ));
                    } else {
                        effect = Some(Effect::Close { fd, cb });
                    }
                }
                proof {
                    let before = old(self)@;
                    let after = self@;
                    lemma_closings_differ(
                        before.files,
                        after.files,
                        handle,
                        before.next_id as nat,
                    );
                    let n = before.next_id as nat;
                    assert(closing_of(before.files, handle) is None);
                    assert(closings(after.files, n).add(Multiset::empty()) =~= closings(
                        after.files,
                        n,
                    ));
                    assert(after.waiting().add(carried(effect)) =~= before.waiting().insert(cb));
                    if before.files[handle].ops == 0 {
                        lemma_idle_handle(before, handle);
                    }
                    assert forall|i: int| 0 <= i < after.queue.len() implies after.sound(
                        #[trigger] after.queue[i],
                    ) by {
                        assert(before.sound(before.queue[i]));
                    }
                    assert forall|i: int| 0 <= i < after.inflight.len() implies after.sound(
                        #[trigger] after.inflight[i],
                    ) by {
                        assert(before.sound(before.inflight[i]));
                    }
                }
                effect
            },
        }
    }

    /// The descriptor to `fstat` before [`Driver::handle_op`] is given the
    /// operation, or `None` when the operation does not depend on it.
    pub fn op_wants_stat(&self, op: &Op<'a>) -> (fd: Option<i32>)
        ensures
            fd == self@.asks_stat(*op),
    {
        let handle: u64 = match op {
            Op::Size { handle } => *handle,
            Op::ReadToEnd { handle, .. } => *handle,
            Op::WriteAt { handle, data, append, .. } => {
                if !(*append && data.is_empty()) {
                    return None;
                }
                *handle
            },
            _ => {
                return None;
            },
        };
        match self.with_fd(handle) {
            Ok(fd) => Some(fd),
            Err(_) => None,
        }
    }

    /// Take an operation: answer it at once, queue a job for it, or ask the
    /// loop for a call.
    pub fn handle_op(
        &mut self,
        id: u64,
        op: Op<'a>,
        cb: C,
        unread: bool,
        stat: &Result<Stat, Error>,
    ) -> (effect: Option<Effect<'a, C>>)
        requires
            old(self)@.wf(),
            old(self)@.load() < usize::MAX,
            op.wf(),
        ensures
            final(self)@.wf(),
            old(self)@.handles(final(self)@, id, op, cb, unread, *stat, effect),
            final(self)@.waiting().add(carried(effect)) == old(self)@.waiting().insert(cb),
    {
        match op {
            Op::Nop => Self::reply(cb, Ok(Reply::Unit)),
            Op::Open { path, spec } => self.open_then(
                OpenJob { path, spec, pending: PendingOpen { id, goal: AfterOpen::Handle, cb } },
                unread,
            ),
            Op::ReadFile { path, inline_max } => {
                let mut spec = OpenSpec::default();
                spec.read = true;
                let goal = AfterOpen::ReadFile { inline_max };
                self.open_then(
                    OpenJob { path, spec, pending: PendingOpen { id, goal, cb } },
                    unread,
                )
            },
            Op::WriteFile { path, data } => {
                let mut spec = OpenSpec::default();
                spec.write = true;
                spec.create = true;
                spec.truncate = true;
                let goal = AfterOpen::WriteFile { data };
                self.open_then(
                    OpenJob { path, spec, pending: PendingOpen { id, goal, cb } },
                    unread,
                )
            },
            Op::Close { handle } => self.close(handle, cb),
            Op::Size { handle } => match self.with_fd(handle) {
                Err(e) => Self::reply(cb, Err(e)),
                Ok(_) => match fd_size(stat) {
                    Ok(size) => Self::reply(cb, Ok(Reply::Size(size))),
                    Err(e) => Self::reply(cb, Err(e)),
                },
            },
            Op::SetLen { handle, size } => match self.with_fd(handle) {
                Err(e) => Self::reply(cb, Err(e)),
                Ok(fd) => {
                    let effect = Some(Effect::SetLen { fd, size, cb });
                    assert(self@.waiting().add(carried(effect)) =~= self@.waiting().insert(cb));
                    effect
                },
            },
            Op::Sync { handle, .. } => match self.with_fd(handle) {
                Err(e) => Self::reply(cb, Err(e)),
                Ok(fd) => {
                    self.enqueue(id, JobKind::Fsync(FsyncJob { handle, fd }), cb);
                    None
                },
            },
            Op::ReadAt { handle, pos, dest } => match self.with_fd(handle) {
                Err(e) => Self::reply(cb, Err(e)),
                Ok(fd) => {
                    let (len, buf) = match dest {
                        Dest::Alloc { len } => {
                            if len == 0 {
                                return Self::reply(cb, Ok(Reply::Bytes(Vec::new())));
                            }
                            (len, ReadBuf::Owned { data: Vec::new(), room: len })
                        },
                        Dest::Into { addr, len } => {
                            if len == 0 {
                                return Self::reply(cb, Ok(Reply::Read { n: 0 }));
                            }
                            (len, ReadBuf::External { addr, len })
                        },
                    };
                    let kind = JobKind::Read(
                        ReadJob {
                            handle: Some(handle),
                            fd,
                            owned_fd: false,
                            pos,
                            want: Want::Exact(len),
                            buf,
                            filled: 0,
                        },
                    );
                    self.enqueue(id, kind, cb);
                    None
                },
            },
            Op::ReadToEnd { handle, pos } => match self.with_fd(handle) {
                Err(e) => Self::reply(cb, Err(e)),
                Ok(fd) => {
                    let rest: usize = match fd_size(stat) {
                        Ok(size) => size.saturating_sub(pos) as usize,
                        Err(_) => 0,
                    };
                    let room: usize = if rest < 1 {
                        1
                    } else {
                        rest
                    };
                    let kind = JobKind::Read(
                        ReadJob {
                            handle: Some(handle),
                            fd,
                            owned_fd: false,
                            pos,
                            want: Want::ToEnd,
                            buf: ReadBuf::Owned { data: Vec::new(), room },
                            filled: 0,
                        },
                    );
                    self.enqueue(id, kind, cb);
                    None
                },
            },
            Op::WriteAt { handle, pos, data, append } => match self.with_fd(handle) {
                Err(e) => Self::reply(cb, Err(e)),
                Ok(fd) => {
                    let n: usize = data.len();
                    if n == 0 {
                        if append {
                            return match fd_size(stat) {
                                Ok(end) => Self::reply(cb, Ok(Reply::Written { n: 0, end })),
                                Err(e) => Self::reply(cb, Err(e)),
                            };
                        }
                        return Self::reply(cb, Ok(Reply::Written { n: 0, end: pos }));
                    }
                    let kind = JobKind::Write(
                        WriteJob {
                            handle: Some(handle),
                            fd,
                            owned_fd: false,
                            pos,
                            append,
                            data,
                            filled: 0,
                        },
                    );
                    self.enqueue(id, kind, cb);
                    None
                },
            },
        }
    }

    /// The effect of calling `cb` with `result`.
    fn reply(cb: C, result: Result<Reply, Error>) -> (effect: Option<Effect<'a, C>>)
        ensures
            DriverView::replies(effect, cb, outcome(result)),
            forall|held: Multiset<C>| #[trigger] held.add(carried(effect)) == held.insert(cb),
    {
        let effect = Some(Effect::Settle(Settlement { cb, result }));
        proof {
            assert forall|held: Multiset<C>| #[trigger]
                held.add(carried(effect)) == held.insert(cb) by {
                assert(held.add(carried(effect)) =~= held.insert(cb));
            }
        }
        effect
    }

    /// An open on this thread came back: settle the op, or queue the job that
    /// it was for.
    pub fn opened(&mut self, pending: PendingOpen<'a, C>, result: Result<(i32, u64), Error>) -> (settled:
        Option<Settlement<C>>)
        requires
            old(self)@.wf(),
            old(self)@.load() < usize::MAX,
            old(self)@.next_id < u64::MAX,
        ensures
            final(self)@.wf(),
            old(self)@.continues(final(self)@, pending, result, settled),
            final(self)@.waiting().add(
                match settled {
                    Some(s) => Multiset::singleton(s.cb),
                    None => Multiset::empty(),
                },
            ) == old(self)@.waiting().insert(pending.cb),
            old(self)@.takes(final(self)@, Event::OpenedHere { pending, result, settled }),
    {
        let PendingOpen { id, goal, cb } = pending;
        let ghost held = self@.waiting();
        assert(held.add(Multiset::singleton(cb)) =~= held.insert(cb));
        assert(held.insert(cb).add(Multiset::empty()) =~= held.insert(cb));
        let (fd, size) = match result {
            Ok(opened) => opened,
            Err(e) => {
                return Some(Settlement { cb, result: Err(e) });
            },
        };
        match goal {
            AfterOpen::Handle => Some(Settlement { cb, result: Ok(self.register(fd, size)) }),
            AfterOpen::ReadFile { inline_max } => {
                if size > inline_max {
                    return Some(Settlement { cb, result: Ok(self.register(fd, size)) });
                }
                let whole: usize = size as usize;
                let room: usize = if whole < 1 {
                    1
                } else {
                    whole
                };
                let kind = JobKind::Read(
                    ReadJob {
                        handle: None,
                        fd,
                        owned_fd: true,
                        pos: 0,
                        want: Want::ToEnd,
                        buf: ReadBuf::Owned { data: Vec::new(), room },
                        filled: 0,
                    },
                );
                self.enqueue(id, kind, cb);
                None
            },
            AfterOpen::WriteFile { data } => {
                let _len: usize = data.len();
                let kind = JobKind::Write(
                    WriteJob {
                        handle: None,
                        fd,
                        owned_fd: true,
                        pos: 0,
                        append: false,
                        data,
                        filled: 0,
                    },
                );
                self.enqueue(id, kind, cb);
                None
            },
        }
    }

    /// A helper's open came back. A cancel request that came meanwhile wins:
    /// the descriptor is closed and the op settles as cancelled.
    pub fn handle_opened(&mut self, opened: Opened<'a, C>) -> (after: AfterReturn<C>)
        requires
            old(self)@.wf(),
            old(self)@.load() < usize::MAX,
            old(self)@.next_id < u64::MAX,
        ensures
            final(self)@.wf(),
            old(self)@.comes_back(final(self)@, opened, after),
            final(self)@.waiting().add(after.carried()) == old(self)@.waiting().insert(
                opened.pending.cb,
            ),
            old(self)@.takes(final(self)@, Event::OpenedAway { opened, after }),
    {
        let Opened { pending, result } = opened;
        let id: u64 = pending.id;
        self.progress = true;
        self.pending_opens.remove(&id);
        let cancelled: bool = self.cancelled_opens.remove(&id);
        proof {
            assert(self@.pending_opens =~= old(self)@.pending_opens.remove(id));
            assert(self@.cancelled_opens =~= old(self)@.cancelled_opens.remove(id));
        }
        if cancelled {
            let close = match result {
                Ok((fd, _)) => Some(fd),
                Err(_) => None,
            };
            let settled = Settlement {
                cb: pending.cb,
                result: Err(cancelled_error(&self.errno)),
            };
            proof {
                let held = self@.waiting();
                assert(held.add(Multiset::singleton(settled.cb)) =~= held.insert(settled.cb));
            }
            return AfterReturn::Cancelled { close, settled };
        }
        match self.opened(pending, result) {
            Some(s) => AfterReturn::Settled(s),
            None => AfterReturn::Queued,
        }
    }

    /// A cancel request: a queued job settles at once, one in flight is marked
    /// so that a chunk that survives is not followed by another, one still at
    /// its open is remembered. An unknown id is done already.
    pub fn cancel(&mut self, id: u64, unread: bool) -> (step: CancelStep<C>)
        requires
            old(self)@.wf(),
        ensures
            final(self)@.wf(),
            old(self)@.cancels(final(self)@, id, unread, step),
            final(self)@.waiting().add(step.carried()) == old(self)@.waiting(),
    {
        proof {
            let held = self@.waiting();
            assert(held.add(Multiset::empty()) =~= held);
        }
        let mut pos: usize = 0;
        while pos < self.queue.len() && self.queue[pos].id != id
            invariant
                self@ == old(self)@,
                0 <= pos <= self@.queue.len(),
                find(self@.queue, id, 0) == find(self@.queue, id, pos as int),
            decreases self@.queue.len() - pos,
        {
            pos = pos + 1;
        }
        if pos < self.queue.len() {
            proof {
                lemma_hold_queued(self@, pos as int);
            }
            if let Some(job) = self.queue.remove(pos) {
                let e = cancelled_error(&self.errno);
                return CancelStep::Finished(self.finish(job, Err(e), unread));
            }
        }
        let mut index: usize = 0;
        while index < self.inflight.len() && self.inflight[index].id != id
            invariant
                self@ == old(self)@,
                0 <= index <= self@.inflight.len(),
                find(self@.queue, id, 0) >= self@.queue.len(),
                find(self@.inflight, id, 0) == find(self@.inflight, id, index as int),
            decreases self@.inflight.len() - index,
        {
            index = index + 1;
        }
        if index < self.inflight.len() {
            proof {
                lemma_mark(self@, index as int);
            }
            let fd: i32 = self.inflight[index].kind.fd();
            self.inflight[index].cancelled = true;
            assert(self@.inflight =~= old(self)@.inflight.update(
                index as int,
                Job { cancelled: true, ..old(self)@.inflight[index as int] },
            ));
            return CancelStep::Abort { index, fd };
        }
        if self.pending_opens.contains(&id) {
            self.cancelled_opens.insert(id);
            return CancelStep::AtOpen;
        }
        CancelStep::Unknown
    }

    /// The next call to make to the kernel, while it takes more requests and a
    /// job waits. [`Driver::submitted`] is told how it went.
    pub fn next_job(&mut self) -> (call: Option<Transfer>)
        requires
            old(self)@.wf(),
            old(self)@.submitting is None,
        ensures
            final(self)@.wf(),
            old(self)@.starts_next(final(self)@, call),
            final(self)@.waiting() == old(self)@.waiting(),
            old(self)@.takes(final(self)@, Event::NextJob { call }),
    {
        if self.inflight.len() >= self.max_inflight {
            return None;
        }
        proof {
            if self@.queue.len() > 0 {
                lemma_hold_queued(self@, 0);
                let held = DriverView { queue: self@.queue.remove(0), ..self@ };
                lemma_slot(held, self@.queue[0], self@.queue[0]);
                assert(self@.queue.remove(0) =~= self@.queue.skip(1));
            }
        }
        match self.queue.pop_front() {
            None => None,
            Some(job) => {
                assert(self@.queue =~= old(self)@.queue.skip(1));
                assert(old(self)@.sound(old(self)@.queue[0]));
                let call = job.transfer();
                self.submitting = Some(job);
                Some(call)
            },
        }
    }

    /// The bytes that the call being made writes: the part of the payload
    /// behind what has been written.
    pub fn unwritten(&self) -> (bytes: Option<&[u8]>)
        requires
            self@.wf(),
        ensures
            match self@.submitting {
                Some(job) => match job.kind@ {
                    crate::job::JobKindView::Write(write) => bytes matches Some(b) && b@
                        == write.data.skip(write.filled as int),
                    _ => bytes is None,
                },
                None => bytes is None,
            },
    {
        match &self.submitting {
            Some(job) => match &job.kind {
                JobKind::Write(write) => {
                    let all = write.data.as_slice();
                    assert(all@.subrange(write.filled as int, all@.len() as int) =~= all@.skip(
                        write.filled as int,
                    ));
                    Some(vstd::slice::slice_subrange(all, write.filled, all.len()))
                },
                _ => None,
            },
            None => None,
        }
    }

    /// How the call went: accepted, or refused with an error code. A full
    /// kernel queue keeps the job for later, unless nothing of ours is in
    /// flight: then nothing would ever make room, and the job runs with
    /// blocking calls.
    pub fn submitted(&mut self, accepted: Result<(), i32>, unread: bool) -> (after: AfterSubmit<C>)
        requires
            old(self)@.wf(),
            old(self)@.submitting is Some,
        ensures
            final(self)@.wf(),
            old(self)@.launches(final(self)@, accepted, unread, after),
            final(self)@.waiting().add(after.carried()) == old(self)@.waiting(),
            old(self)@.takes(final(self)@, Event::Submitted { accepted, unread, after }),
    {
        proof {
            lemma_hold_submitting(self@);
            let now = self@.waiting();
            assert(now.add(Multiset::empty()) =~= now);
        }
        let ghost rest = DriverView { submitting: None, ..self@ };
        let ghost job = self@.submitting->0;
        match accepted {
            Ok(()) => {
                proof {
                    lemma_launch(rest, job);
                }
                if let Some(job) = self.submitting.take() {
                    self.inflight.push(job);
                }
                AfterSubmit::Inflight
            },
            Err(code) => {
                if code == self.errno.again {
                    if self.inflight.len() == 0 {
                        return AfterSubmit::RunSync;
                    }
                    proof {
                        lemma_requeue(rest, job, job);
                    }
                    if let Some(job) = self.submitting.take() {
                        self.queue.push_front(job);
                    }
                    return AfterSubmit::Full;
                }
                match self.submitting.take() {
                    Some(job) => AfterSubmit::Finished(
                        self.finish(job, Err(Error::Os(code)), unread),
                    ),
                    None => AfterSubmit::Full,
                }
            },
        }
    }

    /// The blocking call to make for the job that the kernel's queue had no
    /// room for. [`Driver::sync_done`] is told how it went.
    pub fn sync_call(&self) -> (call: Option<SyncCall>)
        requires
            self@.wf(),
        ensures
            call == (match self@.submitting {
                Some(job) => Some(job.kind@.sync_call()),
                None => None,
            }),
    {
        match &self.submitting {
            Some(job) => Some(job.sync_call()),
            None => None,
        }
    }

    /// How the blocking call went: a chunk, or an error code. A job with more
    /// to move stays for the next blocking call.
    pub fn sync_done(&mut self, moved: Result<Chunk, i32>, unread: bool) -> (finished: Option<
        Finish<C>,
    >)
        requires
            old(self)@.wf(),
            old(self)@.submitting is Some,
            moved matches Ok(chunk) ==> old(self)@.submitting->0.kind@.accepts(
                chunk.n,
                chunk.bytes@,
            ),
        ensures
            final(self)@.wf(),
            old(self)@.blocks(final(self)@, moved, unread, finished),
            match finished {
                Some(finish) => final(self)@.waiting().add(finish.carried())
                    == old(self)@.waiting(),
                None => final(self)@.waiting() == old(self)@.waiting(),
            },
            old(self)@.takes(final(self)@, Event::Blocked { moved, unread, finished }),
    {
        proof {
            lemma_hold_submitting(self@);
        }
        let ghost rest = DriverView { submitting: None, ..self@ };
        let ghost held = self@.submitting->0;
        proof {
            let now = self@.waiting();
            assert(now.add(Multiset::empty()) =~= now);
        }
        match self.submitting.take() {
            None => None,
            Some(job) => {
                let mut job = job;
                match moved {
                    Err(code) => Some(self.finish(job, Err(Error::Os(code)), unread)),
                    Ok(chunk) => match step(&mut job, chunk.n, chunk.bytes, &chunk.stat) {
                        Step::Done(result) => {
                            proof {
                                lemma_exchange(rest, held, job);
                            }
                            Some(self.finish(job, result, unread))
                        },
                        Step::More => {
                            proof {
                                lemma_slot(rest, held, job);
                            }
                            self.submitting = Some(job);
                            None
                        },
                    },
                }
            },
        }
    }

    /// Take a message: an operation, or a cancel request.
    pub fn handle_msg(&mut self, msg: Msg<'a, C>, unread: bool, stat: &Result<Stat, Error>) -> (after:
        AfterMsg<'a, C>)
        requires
            old(self)@.wf(),
            old(self)@.load() < usize::MAX,
            msg matches Msg::Submit { op, .. } ==> op.wf(),
        ensures
            final(self)@.wf(),
            old(self)@.takes_message(final(self)@, msg, unread, *stat, after),
            final(self)@.waiting().add(after.carried()) == (match msg {
                Msg::Submit { cb, .. } => old(self)@.waiting().insert(cb),
                Msg::Cancel { .. } => old(self)@.waiting(),
            }),
            old(self)@.takes(final(self)@, Event::Message { msg, unread, stat: *stat, after }),
    {
        self.progress = true;
        proof {
            let held = self@.waiting();
            assert(held == old(self)@.waiting());
            assert(held.add(Multiset::empty()) =~= held);
            assert(msg matches Msg::Submit { cb, .. } ==> held.add(Multiset::singleton(cb))
                =~= held.insert(cb));
        }
        match msg {
            Msg::Submit { id, op, cb } => AfterMsg::Op(
                self.handle_op(id, op, cb, unread, stat),
            ),
            Msg::Cancel { id } => AfterMsg::Cancel(self.cancel(id, unread)),
        }
    }

    /// One chunk of `job`, a job out of the lists, completed: finish the job,
    /// or queue it for the rest. A job whose chunk survived its cancel request
    /// settles as cancelled instead of going on; a fully completed one keeps
    /// its result.
    pub fn advance(&mut self, job: Job<'a, C>, chunk: Chunk, unread: bool) -> (after: AfterChunk<C>)
        requires
            old(self)@.inv(seq![job]),
            job.wf(),
            job.kind@.accepts(chunk.n, chunk.bytes@),
        ensures
            final(self)@.wf(),
            old(self)@.advances(final(self)@, job, chunk, unread, after),
            final(self)@.waiting().add(after.carried()) == old(self)@.waiting().insert(job.cb),
    {
        let ghost held = job;
        let ghost before = self@;
        let mut job = job;
        match step(&mut job, chunk.n, chunk.bytes, &chunk.stat) {
            Step::Done(result) => {
                proof {
                    lemma_exchange(before, held, job);
                }
                AfterChunk::Finished(self.finish(job, result, unread))
            },
            Step::More => {
                if job.cancelled {
                    proof {
                        lemma_exchange(before, held, job);
                    }
                    let e = cancelled_error(&self.errno);
                    return AfterChunk::Finished(self.finish(job, Err(e), unread));
                }
                proof {
                    lemma_requeue(before, held, job);
                }
                self.queue.push_front(job);
                proof {
                    assert(self@.queue =~= seq![job] + before.queue);
                    assert(self@.queue.skip(1) =~= before.queue);
                    let now = self@.waiting();
                    assert(now.add(Multiset::empty()) =~= now);
                }
                AfterChunk::Requeued
            },
        }
    }

    /// The kernel's word on the request at `index` in flight: an error code, 0
    /// for a chunk that went through.
    pub fn reap(&mut self, index: usize, err: i32, chunk: Chunk, unread: bool) -> (after: AfterReap<
        C,
    >)
        requires
            old(self)@.wf(),
            index < old(self)@.inflight.len(),
            err == 0 ==> old(self)@.inflight[index as int].kind@.accepts(chunk.n, chunk.bytes@),
        ensures
            final(self)@.wf(),
            old(self)@.reaps(final(self)@, index, err, chunk, unread, after),
            final(self)@.waiting().add(after.carried()) == old(self)@.waiting(),
            old(self)@.takes(final(self)@, Event::Reaped { index, err, chunk, unread, after }),
    {
        proof {
            let now = self@.waiting();
            assert(now.add(Multiset::empty()) =~= now);
        }
        if err == self.errno.in_progress {
            return AfterReap::Running;
        }
        proof {
            lemma_hold_inflight(self@, index as int);
            assert(self@.sound(self@.inflight[index as int]));
        }
        let job = self.inflight.swap_remove(index);
        self.progress = true;
        let ghost rest = self@;
        assert(rest.inv(seq![job]));
        assert(rest.waiting().insert(job.cb) == old(self)@.waiting());
        if err == 0 {
            match self.advance(job, chunk, unread) {
                AfterChunk::Requeued => AfterReap::Requeued,
                AfterChunk::Finished(finish) => AfterReap::Finished(finish),
            }
        } else {
            AfterReap::Finished(self.finish(job, Err(Error::Os(err)), unread))
        }
    }

    /// No helper thread is left. Opens still out never come back; from here
    /// on every job the helpers would have taken runs on this thread.
    pub fn lose_helpers(&mut self)
        requires
            old(self)@.wf(),
        ensures
            final(self)@.wf(),
            final(self)@ == (DriverView {
                helpers_gone: true,
                pending_opens: Set::empty(),
                ..old(self)@
            }),
            final(self)@.waiting() == old(self)@.waiting(),
            old(self)@.takes(final(self)@, Event::HelpersLost),
    {
        self.helpers_gone = true;
        self.pending_opens.clear();
    }

    /// No submitter is left.
    pub fn lose_submitters(&mut self)
        requires
            old(self)@.wf(),
        ensures
            final(self)@.wf(),
            final(self)@ == (DriverView { disconnected: true, ..old(self)@ }),
            final(self)@.waiting() == old(self)@.waiting(),
            old(self)@.takes(final(self)@, Event::SubmittersLost),
    {
        self.disconnected = true;
    }

    /// The end of a pass: the next wait for completions is short if anything
    /// moved since the last one was chosen, and doubles up to the cap if not.
    pub fn end_pass(&mut self)
        requires
            old(self)@.wf(),
        ensures
            final(self)@.wf(),
            final(self)@ == (DriverView {
                suspend_ns: next_suspend(old(self)@.suspend_ns, old(self)@.progress),
                progress: false,
                ..old(self)@
            }),
            final(self)@.waiting() == old(self)@.waiting(),
            old(self)@.takes(final(self)@, Event::PassEnded),
    {
        self.suspend_ns = if self.progress {
            SUSPEND_MIN_NS
        } else {
            let doubled: i64 = self.suspend_ns * 2;
            if doubled < SUSPEND_MAX_NS {
                doubled
            } else {
                SUSPEND_MAX_NS
            }
        };
        self.progress = false;
    }

    /// What to wait for before the next pass. Once the submitters are gone
    /// only the helpers can still have something to say; once the helpers are
    /// gone only the submitters can.
    pub fn wait(&self) -> (what: Wait)
        requires
            self@.wf(),
        ensures
            what == self@.waits(),
            what == Wait::Exit ==> self@.waiting() == Multiset::<C>::empty(),
    {
        if self.inflight.len() > 0 || self.queue.len() > 0 || self.submitting.is_some() {
            return Wait::Busy;
        }
        proof {
            idle_holds_no_callback(self@);
        }
        if self.disconnected {
            if self.pending_opens.is_empty() {
                Wait::Exit
            } else {
                Wait::Opened
            }
        } else if self.helpers_gone {
            Wait::Submission
        } else {
            Wait::Either
        }
    }
}

} // verus!
