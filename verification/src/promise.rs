//! What the queueing driver promises across its events.

use vstd::multiset::Multiset;
use vstd::prelude::*;

use crate::effect::{
    AfterChunk, AfterOpen, AfterReturn, CancelStep, Chunk, Effect, Finish, Opened, PendingOpen,
    Settlement,
};
use crate::error::{bad_handle_spec, cancelled_spec, Error};
use crate::job::{Job, JobKindView, Stat, Want};
use crate::limits::{SUSPEND_MAX_NS, SUSPEND_MIN_NS};
use crate::op::{Op, ReplyView};
use crate::run::{
    a_transfer_settles_after_finitely_many_chunks, after, ends, goes_through, Moved,
};
use crate::state::{
    find, lemma_idle_handle, lemma_mark, lemma_release, next_suspend, DriverView,
};

verus! {

/// An operation on a handle that was never opened, or is closed or closing,
/// is answered with the bad-handle error and changes nothing.
pub proof fn a_closed_handle_takes_no_operation<'a, C>(
    v: DriverView<'a, C>,
    new: DriverView<'a, C>,
    id: u64,
    op: Op<'a>,
    cb: C,
    unread: bool,
    stat: Result<Stat, Error>,
    effect: Option<Effect<'a, C>>,
    handle: u64,
)
    requires
        v.handles(new, id, op, cb, unread, stat, effect),
        op.handle() == Some(handle),
        !v.files.contains_key(handle) || v.files[handle].closing is Some,
    ensures
        new == v,
        DriverView::replies(effect, cb, Err(bad_handle_spec())),
{
}

/// A close of an open handle is the last operation that the handle takes.
pub proof fn a_close_is_the_last_operation<'a, C>(
    v: DriverView<'a, C>,
    new: DriverView<'a, C>,
    handle: u64,
    cb: C,
    effect: Option<Effect<'a, C>>,
)
    requires
        v.closes(new, handle, cb, effect),
    ensures
        new.fd_of(handle) is Err,
        forall|other: u64| other != handle ==> #[trigger] new.fd_of(other) == v.fd_of(other),
{
}

/// Whether a job of the driver works on the handle.
pub open spec fn busy<'a, C>(v: DriverView<'a, C>, h: u64) -> bool {
    ||| exists|i: int| 0 <= i < v.queue.len() && (#[trigger] v.queue[i]).kind@.handle() == Some(h)
    ||| exists|i: int|
        0 <= i < v.inflight.len() && (#[trigger] v.inflight[i]).kind@.handle() == Some(h)
    ||| v.submitting matches Some(job) && job.kind@.handle() == Some(h)
}

/// A close that goes ahead at once finds no job on the handle.
pub proof fn a_direct_close_interrupts_no_job<'a, C>(
    v: DriverView<'a, C>,
    new: DriverView<'a, C>,
    handle: u64,
    cb: C,
    effect: Option<Effect<'a, C>>,
)
    requires
        v.wf(),
        v.closes(new, handle, cb, effect),
        effect matches Some(Effect::Close { .. }),
    ensures
        !busy(v, handle),
        effect == Some(Effect::Close { fd: v.files[handle].fd, cb }),
{
    lemma_idle_handle(v, handle);
}

/// A close that waited goes ahead with the end of the last job on its handle,
/// and on that handle's descriptor.
pub proof fn a_deferred_close_interrupts_no_job<'a, C>(
    v: DriverView<'a, C>,
    job: Job<'a, C>,
    result: Result<ReplyView, Error>,
    unread: bool,
    finish: Finish<C>,
)
    requires
        v.inv(seq![job]),
        v.finishes(job@, result, unread, finish),
        finish.deferred is Some,
    ensures
        job.kind@.handle() matches Some(h) && {
            &&& !busy(v, h)
            &&& finish.deferred->0.fd == v.files[h].fd
            &&& !v.released(Some(h)).files.contains_key(h)
        },
{
    let h = job.kind@.handle()->0;
    lemma_release(v, job);
    let after = v.released(Some(h));
    assert forall|i: int| 0 <= i < v.queue.len() implies (#[trigger] v.queue[i]).kind@.handle()
        != Some(h) by {
        assert(after.sound(after.queue[i]));
    }
    assert forall|i: int| 0 <= i < v.inflight.len() implies (
    #[trigger] v.inflight[i]).kind@.handle() != Some(h) by {
        assert(after.sound(after.inflight[i]));
    }
}

/// A job that owns its descriptor closes it when it ends, and only then; one
/// on a handle never does.
pub proof fn an_owned_descriptor_closes_with_its_job<'a, C>(
    v: DriverView<'a, C>,
    job: Job<'a, C>,
    result: Result<ReplyView, Error>,
    unread: bool,
    finish: Finish<C>,
)
    requires
        v.finishes(job@, result, unread, finish),
    ensures
        match job.kind@.handle() {
            None => finish.owned matches Some(close) && close.fd == job.kind@.fd(),
            Some(_) => finish.owned is None,
        },
{
}

/// A handle gets an id that no handle had before: ids ascend.
pub proof fn handle_ids_ascend<'a, C>(
    v: DriverView<'a, C>,
    new: DriverView<'a, C>,
    pending: PendingOpen<'a, C>,
    result: Result<(i32, u64), Error>,
    settled: Option<Settlement<C>>,
    id: u64,
    size: u64,
    fd: i64,
)
    requires
        v.wf(),
        v.next_id < u64::MAX,
        v.continues(new, pending, result, settled),
        settled matches Some(s) && s.tells(pending.cb, Ok(ReplyView::Handle { id, size, fd })),
    ensures
        id == v.next_id,
        new.next_id == id + 1,
        !v.files.contains_key(id),
        new.fd_of(id) == Ok::<i32, Error>(fd as i32),
{
}

/// A transfer that an operation queues is in order and has moved nothing yet:
/// it begins at the operation's position, on the handle's descriptor, with the
/// operation's payload or with room for at least a byte.
pub proof fn a_queued_transfer_starts_at_its_position<'a, C>(
    v: DriverView<'a, C>,
    new: DriverView<'a, C>,
    id: u64,
    op: Op<'a>,
    cb: C,
    unread: bool,
    stat: Result<Stat, Error>,
    effect: Option<Effect<'a, C>>,
)
    requires
        new.wf(),
        v.handles(new, id, op, cb, unread, stat, effect),
        new.queue.len() > v.queue.len(),
    ensures
        new.queue.last()@.id == id,
        new.queue.last()@.cb == cb,
        new.queue.last()@.kind.wf(),
        op.handle() matches Some(h) && new.queue.last()@.kind.handle() == Some(h)
            && v.files[h].fd == new.queue.last()@.kind.fd(),
        match (op, new.queue.last()@.kind) {
            (Op::ReadAt { pos, dest, .. }, JobKindView::Read(read)) => {
                &&& read.pos == pos && read.filled == 0
                &&& read.want == Want::Exact(dest.len()) && read.buf.room() == dest.len()
                &&& read.buf is Owned <==> dest is Alloc
            },
            (Op::ReadToEnd { pos, .. }, JobKindView::Read(read)) => {
                &&& read.pos == pos && read.filled == 0
                &&& read.want is ToEnd && read.buf is Owned && read.buf.room() >= 1
            },
            (Op::WriteAt { pos, data, append, .. }, JobKindView::Write(write)) => {
                &&& write.pos == pos && write.filled == 0
                &&& write.data == data@ && write.append == append
            },
            (Op::Sync { .. }, JobKindView::Fsync(_)) => true,
            _ => false,
        },
{
    assert(new.sound(new.queue[new.queue.len() - 1]));
}

/// A whole-file read of a file of at most `inline_max` bytes is one job; a
/// larger file comes back as an open handle with its size.
pub proof fn a_large_file_is_handed_off<'a, C>(
    v: DriverView<'a, C>,
    new: DriverView<'a, C>,
    id: u64,
    inline_max: u64,
    cb: C,
    fd: i32,
    size: u64,
    settled: Option<Settlement<C>>,
)
    requires
        v.continues(
            new,
            PendingOpen { id, goal: AfterOpen::ReadFile { inline_max }, cb },
            Ok((fd, size)),
            settled,
        ),
    ensures
        size > inline_max ==> (settled matches Some(s) && s.tells(
            cb,
            Ok(ReplyView::Handle { id: v.next_id, size, fd: fd as i64 }),
        )),
        size <= inline_max ==> settled is None && new.queue.len() == v.queue.len() + 1
            && new.queue.last()@.kind.owned_fd() && new.queue.last()@.kind.fd() == fd,
{
}

/// A whole-file transfer starts at the beginning of the file and has moved
/// nothing yet: a write with all of its payload, a read of whatever the file
/// holds, with room for at least a byte. It owns its descriptor, and no handle
/// is made for it.
pub proof fn a_whole_file_transfer_starts_at_the_beginning<'a, C>(
    v: DriverView<'a, C>,
    new: DriverView<'a, C>,
    pending: PendingOpen<'a, C>,
    fd: i32,
    size: u64,
    settled: Option<Settlement<C>>,
)
    requires
        new.wf(),
        v.continues(new, pending, Ok((fd, size)), settled),
        match pending.goal {
            AfterOpen::Handle => false,
            AfterOpen::ReadFile { inline_max } => size <= inline_max,
            AfterOpen::WriteFile { .. } => true,
        },
    ensures
        settled is None,
        new.files == v.files,
        new.queue.last()@.id == pending.id,
        new.queue.last()@.cb == pending.cb,
        new.queue.last()@.kind.wf(),
        new.queue.last()@.kind.owned_fd(),
        new.queue.last()@.kind.fd() == fd,
        match (pending.goal, new.queue.last()@.kind) {
            (AfterOpen::ReadFile { .. }, JobKindView::Read(read)) => {
                &&& read.pos == 0 && read.filled == 0
                &&& read.want is ToEnd && read.buf is Owned && read.buf.room() >= 1
            },
            (AfterOpen::WriteFile { data }, JobKindView::Write(write)) => {
                &&& write.pos == 0 && write.filled == 0
                &&& write.data == data@ && !write.append
            },
            _ => false,
        },
{
    assert(new.sound(new.queue[new.queue.len() - 1]));
}

/// A job marked as cancelled takes no further chunk: whatever the one in
/// flight brings, the job is done after it. If that chunk completed the op,
/// its result stands.
pub proof fn a_cancelled_job_takes_no_further_chunk<'a, C>(
    v: DriverView<'a, C>,
    new: DriverView<'a, C>,
    job: Job<'a, C>,
    chunk: Chunk,
    unread: bool,
    after: AfterChunk<C>,
)
    requires
        v.advances(new, job, chunk, unread, after),
        job.cancelled,
    ensures
        after matches AfterChunk::Finished(finish) && finish.settled.tells(
            job.cb,
            match job.kind@.settles(chunk.n, chunk.bytes@, chunk.stat) {
                Some(result) => result,
                None => Err(cancelled_spec(v.errno)),
            },
        ),
        new.queue == v.queue,
        new.inflight == v.inflight,
        new.submitting == v.submitting,
{
}

/// A cancel request for a queued op settles it as cancelled at once, without a
/// call to the kernel.
pub proof fn a_cancelled_queued_op_settles_at_once<'a, C>(
    v: DriverView<'a, C>,
    new: DriverView<'a, C>,
    id: u64,
    unread: bool,
    step: CancelStep<C>,
)
    requires
        v.cancels(new, id, unread, step),
        exists|i: int| 0 <= i < v.queue.len() && (#[trigger] v.queue[i]).id == id,
    ensures
        step matches CancelStep::Finished(finish) && exists|i: int|
            0 <= i < v.queue.len() && (#[trigger] v.queue[i]).id == id && finish.settled.tells(
                v.queue[i].cb,
                Err(cancelled_spec(v.errno)),
            ) && new.queue == v.queue.remove(i),
{
    let i = choose|i: int| 0 <= i < v.queue.len() && (#[trigger] v.queue[i]).id == id;
    lemma_find(v.queue, id, 0, i);
    assert(v.queue[find(v.queue, id, 0)].id == id);
}

/// The search for an id stops at a job that has it, and not behind one.
proof fn lemma_find<'a, C>(jobs: Seq<Job<'a, C>>, id: u64, from: int, at: int)
    requires
        0 <= from <= at < jobs.len(),
        jobs[at].id == id,
    ensures
        from <= find(jobs, id, from) <= at,
        jobs[find(jobs, id, from)].id == id,
    decreases jobs.len() - from,
{
    if jobs[from].id != id {
        lemma_find(jobs, id, from + 1, at);
    }
}

/// A cancel request for an op in flight settles nothing yet: the callback
/// waits, with the memory it stands for, until the kernel is done.
pub proof fn a_cancel_in_flight_settles_nothing_yet<'a, C>(
    v: DriverView<'a, C>,
    new: DriverView<'a, C>,
    id: u64,
    unread: bool,
    index: usize,
    fd: i32,
)
    requires
        v.wf(),
        v.cancels(new, id, unread, CancelStep::Abort { index, fd }),
    ensures
        0 <= index < v.inflight.len(),
        new.inflight.len() == v.inflight.len(),
        new.inflight[index as int].cb == v.inflight[index as int].cb,
        new.inflight[index as int].kind == v.inflight[index as int].kind,
        new.inflight[index as int].cancelled,
        new.waiting() == v.waiting(),
{
    lemma_find_from(v.inflight, id, 0);
    lemma_mark(v, index as int);
}

/// The search starts where it is told to.
proof fn lemma_find_from<'a, C>(jobs: Seq<Job<'a, C>>, id: u64, from: int)
    requires
        0 <= from <= jobs.len(),
    ensures
        from <= find(jobs, id, from) <= jobs.len(),
    decreases jobs.len() - from,
{
    if from < jobs.len() && jobs[from].id != id {
        lemma_find_from(jobs, id, from + 1);
    }
}

/// A cancel request for an op whose open is out wins when the open comes back:
/// the op settles as cancelled, and the descriptor, if there is one, is closed.
pub proof fn a_cancel_during_an_open_wins<'a, C>(
    v: DriverView<'a, C>,
    marked: DriverView<'a, C>,
    new: DriverView<'a, C>,
    id: u64,
    unread: bool,
    opened: Opened<'a, C>,
    after: AfterReturn<C>,
)
    requires
        v.cancels(marked, id, unread, CancelStep::AtOpen),
        opened.pending.id == id,
        marked.comes_back(new, opened, after),
    ensures
        after matches AfterReturn::Cancelled { close, settled } && settled.tells(
            opened.pending.cb,
            Err(cancelled_spec(v.errno)),
        ) && (opened.result matches Ok((fd, _)) ==> close == Some(fd)),
        new.queue == v.queue,
        new.files == v.files,
        !new.cancelled_opens.contains(id),
{
}

/// A cancel request for an op that the driver does not know changes nothing.
pub proof fn a_cancel_of_a_settled_op_changes_nothing<'a, C>(
    v: DriverView<'a, C>,
    new: DriverView<'a, C>,
    id: u64,
    unread: bool,
    step: CancelStep<C>,
)
    requires
        v.cancels(new, id, unread, step),
        forall|i: int| 0 <= i < v.queue.len() ==> (#[trigger] v.queue[i]).id != id,
        forall|i: int| 0 <= i < v.inflight.len() ==> (#[trigger] v.inflight[i]).id != id,
        !v.pending_opens.contains(id),
    ensures
        step == CancelStep::<C>::Unknown,
        new == v,
{
    lemma_not_found(v.queue, id, 0);
    lemma_not_found(v.inflight, id, 0);
}

/// The search for an id that no job has runs to the end.
proof fn lemma_not_found<'a, C>(jobs: Seq<Job<'a, C>>, id: u64, from: int)
    requires
        0 <= from <= jobs.len(),
        forall|i: int| 0 <= i < jobs.len() ==> (#[trigger] jobs[i]).id != id,
    ensures
        find(jobs, id, from) == jobs.len(),
    decreases jobs.len() - from,
{
    if from < jobs.len() {
        lemma_not_found(jobs, id, from + 1);
    }
}

/// The wait for completions stays within its bounds; a pass that moved
/// something makes it the least, and three that did not make it the most.
pub proof fn the_wait_backs_off_to_its_cap(suspend_ns: i64)
    requires
        SUSPEND_MIN_NS <= suspend_ns <= SUSPEND_MAX_NS,
    ensures
        next_suspend(suspend_ns, true) == SUSPEND_MIN_NS,
        suspend_ns <= next_suspend(suspend_ns, false) <= SUSPEND_MAX_NS,
        ({
            let once = next_suspend(suspend_ns, false);
            let twice = next_suspend(once, false);
            next_suspend(twice, false) == SUSPEND_MAX_NS
        }),
{
}

/// All of `parts` together.
pub open spec fn total<C>(parts: Seq<Multiset<C>>) -> Multiset<C>
    decreases parts.len(),
{
    if parts.len() == 0 {
        Multiset::empty()
    } else {
        total(parts.drop_last()).add(parts.last())
    }
}

/// Every callback is called exactly once. Over a run in which each event hands
/// the driver the callbacks `taken[i]` and brings `given[i]` out of it, as the
/// contract of every event says, what came out and what still waits is what
/// waited and what went in; with nothing waiting at either end, exactly the
/// callbacks that went in came out.
pub proof fn every_callback_comes_out_once<'a, C>(
    states: Seq<DriverView<'a, C>>,
    taken: Seq<Multiset<C>>,
    given: Seq<Multiset<C>>,
)
    requires
        states.len() == taken.len() + 1,
        given.len() == taken.len(),
        forall|i: int|
            0 <= i < taken.len() ==> #[trigger] states[i + 1].waiting().add(given[i])
                == states[i].waiting().add(taken[i]),
    ensures
        states.last().waiting().add(total(given)) == states[0].waiting().add(total(taken)),
        states[0].waiting() == Multiset::<C>::empty() && states.last().waiting() == Multiset::<
            C,
        >::empty() ==> total(given) == total(taken),
    decreases taken.len(),
{
    let n = taken.len() as int;
    if n > 0 {
        let s = states.drop_last();
        let t = taken.drop_last();
        let g = given.drop_last();
        assert forall|i: int| 0 <= i < t.len() implies #[trigger] s[i + 1].waiting().add(g[i])
            == s[i].waiting().add(t[i]) by {
            assert(states[i + 1].waiting().add(given[i]) == states[i].waiting().add(taken[i]));
        }
        every_callback_comes_out_once(s, t, g);
        let first = states[0].waiting();
        let mid = states[n - 1].waiting();
        let end = states[n].waiting();
        assert(states[n - 1 + 1].waiting().add(given[n - 1]) == mid.add(taken[n - 1]));
        assert(end.add(total(g).add(given[n - 1])) =~= end.add(given[n - 1]).add(total(g)));
        assert(mid.add(taken[n - 1]).add(total(g)) =~= mid.add(total(g)).add(taken[n - 1]));
        assert(first.add(total(t)).add(taken[n - 1]) =~= first.add(total(t).add(taken[n - 1])));
    }
    let none = Multiset::<C>::empty();
    assert(none.add(total(given)) =~= total(given));
    assert(none.add(total(taken)) =~= total(taken));
    assert(n == 0 ==> states.last() == states[0]);
}

/// The chunks of one job as they came back: the driver before and after each,
/// the job as it was then, and what the chunk led to.
#[verifier::reject_recursive_types(C)]
pub struct JobRun<'a, C> {
    pub before: Seq<DriverView<'a, C>>,
    pub after: Seq<DriverView<'a, C>>,
    pub jobs: Seq<Job<'a, C>>,
    pub chunks: Seq<Chunk>,
    pub unread: Seq<bool>,
    pub led_to: Seq<AfterChunk<C>>,
}

impl<'a, C> JobRun<'a, C> {
    /// The chunk number `i` led to what it should.
    pub open spec fn steps(self, i: int) -> bool {
        &&& self.jobs[i].kind@.accepts(self.chunks[i].n, self.chunks[i].bytes@)
        &&& self.before[i].advances(
            self.after[i],
            self.jobs[i],
            self.chunks[i],
            self.unread[i],
            self.led_to[i],
        )
    }

    /// The chunk number `i` put the job back into the queue, and there it stayed
    /// as it was until the next chunk, but for a mark as cancelled.
    pub open spec fn goes_on(self, i: int) -> bool {
        &&& self.led_to[i] is Requeued
        &&& self.jobs[i + 1].kind@ == self.after[i].queue[0]@.kind
        &&& self.jobs[i + 1].cb == self.after[i].queue[0]@.cb
    }

    /// The job went through these chunks, from its first one on.
    pub open spec fn runs(self) -> bool {
        let n = self.chunks.len();
        &&& n > 0
        &&& self.before.len() == n && self.after.len() == n && self.jobs.len() == n
        &&& self.unread.len() == n && self.led_to.len() == n
        &&& self.jobs[0].wf() && untouched(self.jobs[0].kind@)
        &&& forall|i: int| 0 <= i < n ==> #[trigger] self.steps(i)
        &&& forall|i: int| 0 <= i < n - 1 ==> #[trigger] self.goes_on(i)
    }

    /// The first `k` chunks.
    pub open spec fn moved(self, k: int) -> Seq<Moved> {
        Seq::new(k as nat, |i: int| moved_by(self.chunks[i]))
    }
}

/// Nothing of the transfer has been moved yet.
pub open spec fn untouched(kind: JobKindView) -> bool {
    match kind {
        JobKindView::Read(read) => read.filled == 0,
        JobKindView::Write(write) => write.filled == 0,
        JobKindView::Fsync(_) => true,
    }
}

/// A chunk with its bytes as a sequence.
pub open spec fn moved_by(chunk: Chunk) -> Moved {
    Moved { n: chunk.n, bytes: chunk.bytes@, stat: chunk.stat }
}

/// The most chunks that a transfer takes, where its length is known: one for
/// each of its bytes, and one at least.
pub open spec fn most_chunks(kind: JobKindView) -> Option<int> {
    match kind {
        JobKindView::Read(read) => match read.want {
            Want::Exact(len) => Some(
                if len > 1 {
                    len as int
                } else {
                    1
                },
            ),
            Want::ToEnd => None,
        },
        JobKindView::Write(write) => Some(
            if write.data.len() > 1 {
                write.data.len() as int
            } else {
                1
            },
        ),
        JobKindView::Fsync(_) => Some(1),
    }
}

/// A job that is back in the queue has gone through its chunks so far.
proof fn lemma_job_goes_through<'a, C>(run: JobRun<'a, C>, k: int)
    requires
        run.runs(),
        0 <= k < run.chunks.len(),
    ensures
        run.jobs[k].kind@ == after(run.jobs[0].kind@, run.moved(k)),
        run.jobs[k].cb == run.jobs[0].cb,
        goes_through(run.jobs[0].kind@, run.moved(k)),
    decreases k,
{
    if k > 0 {
        lemma_job_goes_through(run, k - 1);
        assert(run.steps(k - 1) && run.goes_on(k - 1));
        assert(run.moved(k).drop_last() =~= run.moved(k - 1));
        assert(run.moved(k).last() == moved_by(run.chunks[k - 1]));
    }
}

/// An operation in chunks is answered with its own result: the chunk that
/// completes it calls its callback with what its chunks moved, a chunk before
/// that puts it back into the queue, or calls it as cancelled where that was
/// asked for. That takes finitely many chunks: no more than a sized read or a
/// write has bytes, as long as every chunk of a write moves something.
pub proof fn an_operation_is_answered_after_finitely_many_chunks<'a, C>(run: JobRun<'a, C>)
    requires
        run.runs(),
        run.jobs[0].kind@ is Write ==> forall|i: int|
            0 <= i < run.chunks.len() ==> (#[trigger] run.chunks[i]).n > 0,
    ensures
        ({
            let n = run.chunks.len() as int;
            let kind = run.jobs[0].kind@;
            let last = moved_by(run.chunks.last());
            let settles = after(kind, run.moved(n - 1)).settles(last.n, last.bytes, last.stat);
            &&& match (settles, run.led_to.last()) {
                (Some(result), AfterChunk::Finished(finish)) => {
                    &&& ends(kind, run.moved(n - 1), last, result)
                    &&& finish.settled.tells(run.jobs[0].cb, result)
                },
                (None, AfterChunk::Finished(finish)) => {
                    &&& run.jobs.last().cancelled
                    &&& finish.settled.tells(
                        run.jobs[0].cb,
                        Err(cancelled_spec(run.before.last().errno)),
                    )
                },
                (None, AfterChunk::Requeued) => !run.jobs.last().cancelled && goes_through(
                    kind,
                    run.moved(n),
                ),
                (Some(_), AfterChunk::Requeued) => false,
            }
            &&& most_chunks(kind) matches Some(most) ==> n <= most && (n == most
                ==> run.led_to.last() is Finished)
        }),
{
    let n = run.chunks.len() as int;
    let kind = run.jobs[0].kind@;
    lemma_job_goes_through(run, n - 1);
    assert(run.steps(n - 1));
    assert(run.moved(n).drop_last() =~= run.moved(n - 1));
    assert(run.moved(n).last() == moved_by(run.chunks[n - 1]));
    assert forall|i: int| 0 <= i < n && kind is Write implies (#[trigger] run.moved(n)[i]).n
        > 0 by {
        assert(run.chunks[i].n > 0);
    }
    assert forall|i: int| 0 <= i < n - 1 && kind is Write implies (#[trigger] run.moved(n - 1)[i]).n
        > 0 by {
        assert(run.chunks[i].n > 0);
    }
    a_transfer_settles_after_finitely_many_chunks(kind, run.moved(n - 1));
    if run.led_to.last() is Requeued {
        a_transfer_settles_after_finitely_many_chunks(kind, run.moved(n));
    }
}

} // verus!
