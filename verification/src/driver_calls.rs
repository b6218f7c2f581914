//! What the queueing driver asks of the system for each operation, and what it
//! answers only then.

use vstd::prelude::*;

use crate::effect::{
    AfterChunk, AfterMsg, AfterOpen, AfterReap, AfterReturn, AfterSubmit, CancelStep, Chunk, Effect,
    Finish, HelperJob, OpenJob, Opened, PendingOpen, Settlement,
};
use crate::error::Error;
use crate::event::Event;
use crate::job::{Job, JobKindView, Stat, SyncCall, Target, Transfer};
use crate::op::{outcome, payloads_fit, Dest, Msg, Op, Reply, ReplyView};
use crate::open::{after_call, sized_open, AfterCall};
use crate::run::{a_read_to_end_takes_one_call, Moved};
use crate::state::{find, room_to_end, DriverView};
use crate::task::Call;
use crate::task_calls::{admits, asks_for, opened};

verus! {

/// The handle takes operations: it was opened, and no close has reached it.
pub open spec fn is_open<'a, C>(v: DriverView<'a, C>, handle: u64) -> bool {
    v.files.contains_key(handle) && v.files[handle].closing is None
}

/// Nothing waits on the driver's thread: no submission, no job, no open.
pub open spec fn at_rest<'a, C>(v: DriverView<'a, C>, unread: bool) -> bool {
    &&& !unread
    &&& v.queue.len() == 0
    &&& forall|id: u64| !#[trigger] v.pending_opens.contains(id)
}

/// An operation that opens a path asks for just one thing: that its own path be
/// opened, with the options that its task would open it with, for the purpose
/// that is its own. The open is made on this thread exactly when nothing else
/// waits on it.
pub proof fn an_operation_opens_its_own_path<'a, C>(
    v: DriverView<'a, C>,
    new: DriverView<'a, C>,
    id: u64,
    op: Op<'a>,
    cb: C,
    unread: bool,
    stat: Result<Stat, Error>,
    effect: Option<Effect<'a, C>>,
)
    requires
        op is Open || op is ReadFile || op is WriteFile,
        v.handles(new, id, op, cb, unread, stat, effect),
    ensures
        new.queue == v.queue,
        new.files == v.files,
        effect is Some,
        effect->0 is OpenHere <==> at_rest(v, unread),
        ({
            let job = match effect->0 {
                Effect::OpenHere(job) => job,
                Effect::OpenAway(job) => job,
                _ => arbitrary(),
            };
            &&& effect->0 is OpenHere || effect->0 is OpenAway
            &&& effect->0 is OpenAway ==> new.pending_opens.contains(id)
            &&& asks_for(op, Call::Open { path: job.path, spec: job.spec })
            &&& job.pending.id == id
            &&& job.pending.cb == cb
            &&& match op {
                Op::Open { .. } => job.pending.goal is Handle,
                Op::ReadFile { inline_max, .. } => job.pending.goal matches AfterOpen::ReadFile {
                    inline_max: max,
                } && max == inline_max,
                Op::WriteFile { data, .. } => job.pending.goal matches AfterOpen::WriteFile {
                    data: payload,
                } && payload == data,
                _ => false,
            }
        }),
{
    if v.pending_opens == Set::<u64>::empty() {
        assert forall|id: u64| !#[trigger] v.pending_opens.contains(id) by {}
    } else if at_rest(v, unread) {
        assert(v.pending_opens =~= Set::<u64>::empty());
    }
}

/// The open of a whole-file write succeeds on a file that is there as on one
/// that is not, and leaves it empty; that of a whole-file read makes no file
/// and takes none of its bytes; that of an open does what its options say.
pub proof fn an_operation_opens_what_it_should<'a, C>(
    v: DriverView<'a, C>,
    new: DriverView<'a, C>,
    id: u64,
    op: Op<'a>,
    cb: C,
    unread: bool,
    stat: Result<Stat, Error>,
    effect: Option<Effect<'a, C>>,
    job: OpenJob<'a, C>,
    there: Option<Seq<u8>>,
)
    requires
        v.handles(new, id, op, cb, unread, stat, effect),
        effect == Some(Effect::OpenHere(job)) || effect == Some(Effect::OpenAway(job)),
    ensures
        match op {
            Op::WriteFile { .. } => admits(job.spec, there) && opened(job.spec, there) == Seq::<
                u8,
            >::empty(),
            Op::ReadFile { .. } => {
                &&& admits(job.spec, there) <==> there is Some
                &&& there matches Some(file) ==> opened(job.spec, there) == file
            },
            Op::Open { spec, .. } => {
                &&& admits(job.spec, there) == admits(spec, there)
                &&& opened(job.spec, there) == opened(spec, there)
            },
            _ => false,
        },
{
}

/// An operation on an open handle with something to move is never answered
/// right away: it becomes one more job, the last of the queue, on the handle's
/// own descriptor. What that asks of the system is the operation itself: a read
/// of its range from its position on into its own memory, a write of its
/// payload, a flush.
pub proof fn an_operation_with_work_becomes_a_job<'a, C>(
    v: DriverView<'a, C>,
    new: DriverView<'a, C>,
    id: u64,
    op: Op<'a>,
    cb: C,
    unread: bool,
    stat: Result<Stat, Error>,
    effect: Option<Effect<'a, C>>,
    handle: u64,
)
    requires
        op.handle() == Some(handle),
        is_open(v, handle),
        match op {
            Op::Sync { .. } | Op::ReadToEnd { .. } => true,
            Op::ReadAt { dest, .. } => dest.len() > 0,
            Op::WriteAt { data, .. } => data@.len() > 0,
            _ => false,
        },
        v.handles(new, id, op, cb, unread, stat, effect),
    ensures
        effect is None,
        new.queue.len() == v.queue.len() + 1,
        new.queue.drop_last() == v.queue,
        new.queue.last().id == id,
        new.queue.last().cb == cb,
        !new.queue.last().cancelled,
        new.inflight == v.inflight,
        ({
            let fd = v.files[handle].fd;
            let kind = new.queue.last().kind@;
            match (op, kind.transfer(), kind.sync_call()) {
                (
                    Op::ReadAt { pos, dest, .. },
                    Transfer::Read { fd: f, offset, target, len },
                    SyncCall::Pread { fd: g, offset: o, target: t, len: l },
                ) => {
                    &&& f == fd && offset == pos && len == dest.len()
                    &&& g == fd && o == pos && l == dest.len() && t == target
                    &&& match dest {
                        Dest::Alloc { .. } => target is Fresh,
                        Dest::Into { addr, .. } => target == Target::At(addr),
                    }
                },
                (
                    Op::ReadToEnd { pos, .. },
                    Transfer::Read { fd: f, offset, target, len },
                    SyncCall::Pread { fd: g, offset: o, .. },
                ) => f == fd && offset == pos && target is Fresh && len >= 1 && g == fd && o == pos,
                (
                    Op::WriteAt { pos, data, append, .. },
                    Transfer::Write { fd: f, offset, start, len },
                    call,
                ) => {
                    &&& f == fd && offset == pos && start == 0 && len == data@.len()
                    &&& append ==> (call matches SyncCall::Write { fd: g, start: s, len: l } && g
                        == fd && s == 0 && l == len)
                    &&& !append ==> (call matches SyncCall::Pwrite {
                        fd: g,
                        offset: o,
                        start: s,
                        len: l,
                    } && g == fd && o == pos && s == 0 && l == len)
                },
                (
                    Op::Sync { .. },
                    Transfer::Fsync { fd: f },
                    SyncCall::Fsync { fd: g },
                ) => f == fd && g == fd,
                _ => false,
            }
        }),
{
    let job = new.queue.last();
    assert(job@.kind == job.kind@ && job@.id == job.id && job@.cb == job.cb);
    if let Op::WriteAt { data, .. } = op {
        payloads_fit(data);
    }
}

/// An operation on an open handle with nothing to move is answered right away,
/// and well: an empty read brought nothing, an empty write wrote nothing and
/// ends where it began, and an empty append ends at the end of the file. The
/// size that is replied is the one that the system tells of the handle's
/// descriptor, and where it tells none its error is.
pub proof fn an_operation_without_work_is_answered_at_once<'a, C>(
    v: DriverView<'a, C>,
    new: DriverView<'a, C>,
    id: u64,
    op: Op<'a>,
    cb: C,
    unread: bool,
    stat: Result<Stat, Error>,
    effect: Option<Effect<'a, C>>,
    handle: u64,
)
    requires
        op is Nop || (op.handle() == Some(handle) && is_open(v, handle)),
        match op {
            Op::Nop | Op::Size { .. } => true,
            Op::ReadAt { dest, .. } => dest.len() == 0,
            Op::WriteAt { data, .. } => data@.len() == 0,
            _ => false,
        },
        v.handles(new, id, op, cb, unread, stat, effect),
    ensures
        new == v,
        effect matches Some(Effect::Settle(s)) && s.cb == cb && match (op, outcome(
            s.result,
        )) {
            (Op::Nop, Ok(reply)) => reply is Unit,
            (Op::Size { .. }, result) => match stat {
                Ok(told) => result matches Ok(ReplyView::Size(size)) && size == told.size,
                Err(e) => result == Err::<ReplyView, Error>(e),
            },
            (Op::ReadAt { dest, .. }, Ok(reply)) => match dest {
                Dest::Alloc { .. } => reply matches ReplyView::Bytes(data) && data.len() == 0,
                Dest::Into { .. } => reply matches ReplyView::Read { n } && n == 0,
            },
            (Op::WriteAt { pos, append, .. }, result) => if append {
                match stat {
                    Ok(told) => result matches Ok(ReplyView::Written { n, end }) && n == 0 && end
                        == told.size,
                    Err(e) => result == Err::<ReplyView, Error>(e),
                }
            } else {
                result matches Ok(ReplyView::Written { n, end }) && n == 0 && end == pos
            },
            _ => false,
        },
        op is Size || (op matches Op::WriteAt { append, .. } && append) ==> v.asks_stat(op) == Some(
            v.files[handle].fd,
        ),
{
}

/// A change of length or a close of an open handle is never answered right
/// away: the loop is asked to make the call, on the handle's own descriptor and
/// with the length that was asked for, and to call back then; a close waits for
/// the jobs on its handle, and for nothing else.
pub proof fn a_call_is_made_before_it_is_answered<'a, C>(
    v: DriverView<'a, C>,
    new: DriverView<'a, C>,
    id: u64,
    op: Op<'a>,
    cb: C,
    unread: bool,
    stat: Result<Stat, Error>,
    effect: Option<Effect<'a, C>>,
    handle: u64,
)
    requires
        op is SetLen || op is Close,
        op.handle() == Some(handle),
        is_open(v, handle),
        v.handles(new, id, op, cb, unread, stat, effect),
    ensures
        new.queue == v.queue,
        new.inflight == v.inflight,
        match op {
            Op::SetLen { size, .. } => {
                &&& new.files == v.files
                &&& effect matches Some(Effect::SetLen { fd, size: s, cb: c }) && fd
                    == v.files[handle].fd && s == size && c == cb
            },
            _ => if v.files[handle].ops == 0 {
                &&& effect matches Some(Effect::Close { fd, cb: c }) && fd == v.files[handle].fd
                    && c == cb
                &&& !new.files.contains_key(handle)
            } else {
                &&& effect is None
                &&& new.files.contains_key(handle) && new.files[handle].closing == Some(cb)
                &&& new.files[handle].fd == v.files[handle].fd
            },
        },
        !(op is SetLen) ==> !is_open(new, handle),
        forall|other: u64|
            other != handle ==> #[trigger] is_open(new, other) == is_open(v, other),
{
}

/// An open that went well is answered with a handle that is open on just the
/// descriptor it got, with the size that was told of it, and that no handle had
/// before. One that went wrong is answered with its error, and leaves nothing
/// behind.
pub proof fn an_open_is_answered_with_its_own_descriptor<'a, C>(
    v: DriverView<'a, C>,
    new: DriverView<'a, C>,
    pending: PendingOpen<'a, C>,
    result: Result<(i32, u64), Error>,
    settled: Option<Settlement<C>>,
)
    requires
        v.wf(),
        v.continues(new, pending, result, settled),
        pending.goal is Handle || result is Err,
    ensures
        new.queue == v.queue,
        settled matches Some(s) && s.cb == pending.cb && match (result, outcome(
            s.result,
        )) {
            (Err(e), answer) => answer == Err::<ReplyView, Error>(e) && new == v,
            (Ok((fd, size)), Ok(ReplyView::Handle { id, size: told, fd: raw })) => {
                &&& told == size && raw == fd
                &&& !v.files.contains_key(id)
                &&& is_open(new, id) && new.files[id].fd == fd
                &&& forall|other: u64|
                    other != id ==> #[trigger] is_open(new, other) == is_open(v, other)
            },
            _ => false,
        },
{
}

/// An open, from the system's two answers to what comes of it: a file that is
/// opened for a handle or to be read has the size that the system tells of its
/// descriptor; one that is to be written anew needs none. A failure of either
/// call is the open's, and then no descriptor is left open.
pub proof fn an_open_has_the_size_that_is_told<'a>(
    goal: AfterOpen<'a>,
    call: Result<i32, Error>,
    stat: Result<Stat, Error>,
)
    ensures
        match (call, after_call(goal, call)) {
            (Err(e), AfterCall::Done(result)) => result == Err::<(i32, u64), Error>(e),
            (Ok(fd), AfterCall::Done(result)) => {
                &&& goal is WriteFile
                &&& result matches Ok((f, size)) && f == fd && size == 0
            },
            (Ok(fd), AfterCall::Size(f)) => {
                &&& !(goal is WriteFile)
                &&& f == fd
                &&& match (stat, sized_open(fd, stat).result) {
                    (Ok(told), Ok((g, size))) => {
                        &&& g == fd && size == told.size
                        &&& sized_open(fd, stat).close is None
                    },
                    (Err(e), Err(why)) => why == e && sized_open(fd, stat).close == Some(fd),
                    _ => false,
                }
            },
            _ => false,
        },
{
}

/// A read to end of a file that is as long as the system tells asks for all the
/// rest of it in its first call, and is answered with it after that one.
pub proof fn a_read_to_end_asks_for_the_rest_at_once<'a, C>(
    v: DriverView<'a, C>,
    new: DriverView<'a, C>,
    id: u64,
    handle: u64,
    pos: u64,
    cb: C,
    unread: bool,
    told: Stat,
    effect: Option<Effect<'a, C>>,
    rest: Seq<u8>,
)
    requires
        is_open(v, handle),
        told.regular,
        pos < told.size,
        told.size - pos <= usize::MAX,
        rest.len() == told.size - pos,
        v.handles(new, id, Op::ReadToEnd { handle, pos }, cb, unread, Ok(told), effect),
        new.wf(),
    ensures
        ({
            let kind = new.queue.last().kind@;
            &&& kind.transfer() matches Transfer::Read { offset, len, .. } && offset == pos
                && offset + len == told.size
            &&& kind.settles(rest.len() as usize, rest, Ok(told)) == Some(
                Ok::<ReplyView, Error>(ReplyView::Bytes(rest)),
            )
        }),
{
    let kind = new.queue.last()@.kind;
    let read = kind->Read_0;
    assert(new.sound(new.queue[new.queue.len() - 1]));
    a_read_to_end_takes_one_call(
        read,
        told.size,
        Moved { n: rest.len() as usize, bytes: rest, stat: Ok(told) },
    );
}

/// A request that the kernel refuses for want of room is neither lost nor
/// answered: its job is the next to go again, or is run with blocking calls
/// where no other request can make room. Any other refusal is the operation's
/// error; and a request that is taken is the last of those in flight.
pub proof fn a_refused_request_is_not_lost<'a, C>(
    v: DriverView<'a, C>,
    new: DriverView<'a, C>,
    job: Job<'a, C>,
    accepted: Result<(), i32>,
    unread: bool,
    after: AfterSubmit<C>,
)
    requires
        v.submitting == Some(job),
        v.launches(new, accepted, unread, after),
    ensures
        match accepted {
            Ok(_) => {
                &&& after is Inflight
                &&& new.submitting is None
                &&& new.inflight == v.inflight.push(job)
                &&& new.queue == v.queue
            },
            Err(code) => if code != v.errno.again {
                &&& after matches AfterSubmit::Finished(finish) && finish.settled.tells(
                    job.cb,
                    Err(Error::Os(code)),
                )
                &&& new.submitting is None
                &&& new.queue == v.queue && new.inflight == v.inflight
            } else if v.inflight.len() > 0 {
                &&& after is Full
                &&& new.submitting is None
                &&& new.queue.len() == v.queue.len() + 1
                &&& new.queue[0] == job
                &&& new.queue.skip(1) == v.queue
                &&& new.inflight == v.inflight
            } else {
                &&& after is RunSync
                &&& new == v
            },
        },
{
}

/// A request that the kernel still works on stays as it is. One that failed is
/// answered with the kernel's code; one that came back leaves the flight, and
/// the others stay in it.
pub proof fn a_request_stays_until_the_kernel_is_done<'a, C>(
    v: DriverView<'a, C>,
    new: DriverView<'a, C>,
    index: usize,
    err: i32,
    chunk: Chunk,
    unread: bool,
    after: AfterReap<C>,
)
    requires
        v.errno.wf(),
        index < v.inflight.len(),
        v.reaps(new, index, err, chunk, unread, after),
    ensures
        after is Running <==> err == v.errno.in_progress,
        after is Running ==> new == v,
        !(after is Running) ==> {
            &&& new.progress
            &&& new.inflight.len() == v.inflight.len() - 1
            &&& new.inflight.to_multiset() == v.inflight.to_multiset().remove(
                v.inflight[index as int],
            )
        },
        err != 0 && err != v.errno.in_progress ==> (after matches AfterReap::Finished(finish)
            && finish.settled.tells(v.inflight[index as int].cb, Err(Error::Os(err)))),
{
    if err != v.errno.in_progress {
        let rest = v.inflight.update(index as int, v.inflight.last()).drop_last();
        lemma_taken_out(v.inflight, index as int);
        assert(new.inflight == rest);
    }
}

/// An item that the last one takes the place of is gone, and no other is.
proof fn lemma_taken_out<T>(items: Seq<T>, i: int)
    requires
        0 <= i < items.len(),
    ensures
        items.update(i, items.last()).drop_last().to_multiset() == items.to_multiset().remove(
            items[i],
        ),
{
    broadcast use vstd::seq_lib::group_to_multiset_ensures;

    let last = items.len() - 1;
    let moved = items.update(i, items.last());
    assert(moved.drop_last() =~= moved.remove(last));
    vstd::seq_lib::to_multiset_remove(moved, last);
    vstd::seq_lib::to_multiset_update(items, i, items.last());
    let all = items.to_multiset();
    assert(all.count(items[i]) > 0) by {
        assert(items.contains(items[i]));
    }
    assert(all.insert(items.last()).remove(items[i]).remove(items.last()) =~= all.remove(items[i]));
}

/// A blocking call that fails is answered with its code, and one that does not
/// settle its job leaves the job to the next call.
pub proof fn a_blocking_call_is_answered_or_goes_on<'a, C>(
    v: DriverView<'a, C>,
    new: DriverView<'a, C>,
    job: Job<'a, C>,
    moved: Result<Chunk, i32>,
    unread: bool,
    finished: Option<Finish<C>>,
)
    requires
        v.submitting == Some(job),
        v.blocks(new, moved, unread, finished),
    ensures
        moved matches Err(code) ==> (finished matches Some(finish) && finish.settled.tells(
            job.cb,
            Err(Error::Os(code)),
        )),
        finished matches Some(finish) ==> new.submitting is None && finish.settled.cb == job.cb,
        finished is None ==> (new.submitting matches Some(next) && next.cb == job.cb && next.id
            == job.id),
        new.queue == v.queue,
        new.inflight == v.inflight,
{
    if finished is None {
        assert(new.submitting->0@.cb == new.submitting->0.cb);
        assert(new.submitting->0@.id == new.submitting->0.id);
    }
}

/// The driver's thread exits only when nothing is left and nothing can come:
/// no job, no open that is out, and nobody who submits. It sleeps only while no
/// job is there, and never for something that cannot come.
pub proof fn the_thread_exits_when_nothing_can_come<'a, C>(v: DriverView<'a, C>)
    ensures
        v.waits() is Exit <==> {
            &&& v.queue.len() == 0 && v.inflight.len() == 0 && v.submitting is None
            &&& v.disconnected
            &&& forall|id: u64| !#[trigger] v.pending_opens.contains(id)
        },
        v.waits() is Busy <==> v.queue.len() > 0 || v.inflight.len() > 0 || v.submitting is Some,
        v.waits() is Submission ==> !v.disconnected && v.helpers_gone,
        v.waits() is Either ==> !v.disconnected && !v.helpers_gone,
        v.waits() is Opened ==> v.disconnected && exists|id: u64| v.pending_opens.contains(id),
{
    if forall|id: u64| !#[trigger] v.pending_opens.contains(id) {
        assert(v.pending_opens =~= Set::<u64>::empty());
    }
}

/// The descriptor that only a job knew about is closed with the job, and on
/// this thread exactly when nothing else waits on it. The job's callback is
/// told the job's result.
pub proof fn an_owned_descriptor_is_closed_where_it_holds_nothing_up<'a, C>(
    v: DriverView<'a, C>,
    job: Job<'a, C>,
    result: Result<ReplyView, Error>,
    unread: bool,
    finish: Finish<C>,
)
    requires
        v.finishes(job@, result, unread, finish),
    ensures
        finish.owned matches Some(close) ==> (close.away <==> !at_rest(v, unread)),
        finish.settled.cb == job.cb,
        outcome(finish.settled.result) == result,
{
    if at_rest(v, unread) {
        assert(v.pending_opens =~= Set::<u64>::empty());
    }
}

/// The end of `job` leaves nothing open that should be closed: it calls back
/// the job's callback, closes the descriptor that only the job knew about, and
/// goes ahead with the close that waited for the last job on its handle.
pub open spec fn ends_job<'a, C>(v: DriverView<'a, C>, job: Job<'a, C>, finish: Finish<C>) -> bool {
    &&& finish.settled.cb == job.cb
    &&& match job.kind@.handle() {
        None => {
            &&& finish.owned matches Some(close) && close.fd == job.kind@.fd()
            &&& finish.deferred is None
        },
        Some(h) => {
            &&& finish.owned is None
            &&& finish.deferred is Some <==> v.files[h].closing is Some && v.files[h].ops == 1
            &&& finish.deferred matches Some(d) ==> v.files[h].closing == Some(d.cb) && d.fd
                == v.files[h].fd
        },
    }
}

/// However a job ends, by its last chunk, by an error, by a refusal of the
/// kernel or by a cancel request, it leaves nothing open that should be closed.
pub proof fn every_end_of_a_job_closes_what_it_should<'a, C>(
    v: DriverView<'a, C>,
    new: DriverView<'a, C>,
    event: Event<'a, C>,
)
    requires
        v.does(new, event),
    ensures
        match event {
            Event::Reaped { index, after: AfterReap::Finished(finish), .. } => ends_job(
                v,
                v.inflight[index as int],
                finish,
            ),
            Event::Submitted { after: AfterSubmit::Finished(finish), .. } => ends_job(
                v,
                v.submitting->0,
                finish,
            ),
            Event::Blocked { finished: Some(finish), .. } => ends_job(v, v.submitting->0, finish),
            Event::Message {
                msg: Msg::Cancel { id },
                after: AfterMsg::Cancel(CancelStep::Finished(finish)),
                ..
            } => exists|i: int|
                0 <= i < v.queue.len() && (#[trigger] v.queue[i]).id == id && ends_job(
                    v,
                    v.queue[i],
                    finish,
                ),
            _ => true,
        },
{
    if let Event::Message { msg: Msg::Cancel { id }, .. } = event {
        lemma_found(v.queue, id, 0);
    }
}

/// A search that ends before the end has found the id.
proof fn lemma_found<'a, C>(jobs: Seq<Job<'a, C>>, id: u64, from: int)
    requires
        0 <= from <= jobs.len(),
    ensures
        from <= find(jobs, id, from) <= jobs.len(),
        find(jobs, id, from) < jobs.len() ==> jobs[find(jobs, id, from)].id == id,
    decreases jobs.len() - from,
{
    if from < jobs.len() && jobs[from].id != id {
        lemma_found(jobs, id, from + 1);
    }
}

/// A read to end begins with room for just what the file is said to hold from
/// its position on, and for one byte where that is nothing or is not known.
pub proof fn a_read_to_end_begins_with_room_for_the_rest(told: Stat, pos: u64, e: Error)
    ensures
        pos < told.size && told.size - pos <= usize::MAX ==> room_to_end(Ok(told), pos)
            == told.size - pos,
        pos >= told.size ==> room_to_end(Ok(told), pos) == 1,
        room_to_end(Err(e), pos) == 1,
{
}

/// A flush is answered well, with nothing to tell, by the first call that comes
/// back, and asks nothing of the size of its file.
pub proof fn a_flush_is_done_when_its_call_is<'a, C>(
    job: Job<'a, C>,
    n: usize,
    bytes: Seq<u8>,
    stat: Result<Stat, Error>,
)
    requires
        job.kind@ is Fsync,
    ensures
        job.kind@.settles(n, bytes, stat) matches Some(Ok(reply)) && reply is Unit,
        !job.kind@.wants_stat(n),
{
}

/// A job that goes on is the next to go, before every job that waits, with its
/// own id and callback; it asks for what comes right behind the chunk.
pub proof fn a_job_that_goes_on_is_the_next_to_go<'a, C>(
    v: DriverView<'a, C>,
    new: DriverView<'a, C>,
    job: Job<'a, C>,
    chunk: Chunk,
    unread: bool,
)
    requires
        job.wf(),
        job.kind@.accepts(chunk.n, chunk.bytes@),
        v.advances(new, job, chunk, unread, AfterChunk::Requeued),
    ensures
        !job.cancelled,
        new.queue.len() == v.queue.len() + 1,
        new.queue.skip(1) == v.queue,
        new.queue[0].id == job.id,
        new.queue[0].cb == job.cb,
        !new.queue[0].cancelled,
        new.files == v.files,
        new.inflight == v.inflight,
        match (job.kind@.transfer(), new.queue[0].kind@.transfer()) {
            (
                Transfer::Read { fd, offset, .. },
                Transfer::Read { fd: f, offset: o, .. },
            ) => f == fd && o == offset + chunk.n,
            (
                Transfer::Write { fd, start, len, .. },
                Transfer::Write { fd: f, start: s, len: l, .. },
            ) => f == fd && s == start + chunk.n && l == len - chunk.n,
            _ => false,
        },
{
    let next = new.queue[0];
    assert(next@.id == next.id && next@.cb == next.cb && next@.kind == next.kind@ && next@.cancelled
        == next.cancelled);
    assert(job@.id == job.id && job@.cb == job.cb && job@.kind == job.kind@ && job@.cancelled
        == job.cancelled);
}

/// An open that comes back from a helper, and that no cancel request was for,
/// is answered as it went: an error with the error, a handle with the
/// descriptor and the size that came back; a whole-file write or a whole-file
/// read of a small file becomes the last job of the queue. It is not out any
/// more, and every other open is where it was.
pub proof fn an_open_that_comes_back_is_answered_as_it_went<'a, C>(
    v: DriverView<'a, C>,
    new: DriverView<'a, C>,
    opened: Opened<'a, C>,
    after: AfterReturn<C>,
)
    requires
        !v.cancelled_opens.contains(opened.pending.id),
        v.comes_back(new, opened, after),
    ensures
        new.progress,
        !new.pending_opens.contains(opened.pending.id),
        forall|id: u64|
            id != opened.pending.id ==> (#[trigger] new.pending_opens.contains(id)
                <==> v.pending_opens.contains(id)),
        match (opened.result, after) {
            (Err(e), AfterReturn::Settled(s)) => s.tells(opened.pending.cb, Err(e)) && new.queue
                == v.queue && new.files == v.files,
            (Ok((fd, size)), AfterReturn::Settled(s)) => {
                &&& s.cb == opened.pending.cb
                &&& s.result matches Ok(Reply::Handle { id, size: told, fd: raw }) && told == size
                    && raw == fd && is_open(new, id) && new.files[id].fd == fd
                &&& match opened.pending.goal {
                    AfterOpen::Handle => true,
                    AfterOpen::ReadFile { inline_max } => size > inline_max,
                    AfterOpen::WriteFile { .. } => false,
                }
            },
            (Ok((fd, size)), AfterReturn::Queued) => {
                &&& new.queue.len() == v.queue.len() + 1
                &&& new.queue.drop_last() == v.queue
                &&& new.queue.last().id == opened.pending.id
                &&& new.queue.last().cb == opened.pending.cb
                &&& new.queue.last().kind@.fd() == fd
                &&& new.files == v.files
                &&& match opened.pending.goal {
                    AfterOpen::Handle => false,
                    AfterOpen::ReadFile { inline_max } => size <= inline_max,
                    AfterOpen::WriteFile { .. } => true,
                }
            },
            _ => false,
        },
{
    if after is Queued {
        let job = new.queue.last();
        assert(job@.id == job.id && job@.cb == job.cb && job@.kind == job.kind@);
    }
}

/// The kernel is asked to abort just the request that the cancel request is
/// for, on its own descriptor; no other job is touched.
pub proof fn an_abort_is_for_the_operation_that_was_named<'a, C>(
    v: DriverView<'a, C>,
    new: DriverView<'a, C>,
    id: u64,
    unread: bool,
    index: usize,
    fd: i32,
)
    requires
        v.cancels(new, id, unread, CancelStep::Abort { index, fd }),
        v.inflight.len() <= usize::MAX,
    ensures
        index < v.inflight.len(),
        v.inflight[index as int].id == id,
        fd == v.inflight[index as int].kind@.fd(),
        new.inflight[index as int].cancelled,
        forall|i: int|
            0 <= i < v.inflight.len() && i != index ==> #[trigger] new.inflight[i]
                == v.inflight[i],
        new.queue == v.queue,
        new.files == v.files,
{
    lemma_found(v.queue, id, 0);
    lemma_found(v.inflight, id, 0);
}

/// A whole-file read of a file that is as long as the system tells asks for all
/// of it in its first call, and is answered with it after that one.
pub proof fn a_whole_file_read_asks_for_the_file_at_once<'a, C>(
    v: DriverView<'a, C>,
    new: DriverView<'a, C>,
    pending: PendingOpen<'a, C>,
    fd: i32,
    told: Stat,
    settled: Option<Settlement<C>>,
    file: Seq<u8>,
)
    requires
        new.wf(),
        told.regular,
        0 < told.size <= usize::MAX,
        file.len() == told.size,
        pending.goal matches AfterOpen::ReadFile { inline_max } && told.size <= inline_max,
        v.continues(new, pending, Ok((fd, told.size)), settled),
    ensures
        ({
            let kind = new.queue.last().kind@;
            &&& kind.transfer() matches Transfer::Read { fd: f, offset, len, .. } && f == fd
                && offset == 0 && len == told.size
            &&& kind.settles(file.len() as usize, file, Ok(told)) == Some(
                Ok::<ReplyView, Error>(ReplyView::Bytes(file)),
            )
        }),
{
    let read = new.queue.last()@.kind->Read_0;
    assert(new.sound(new.queue[new.queue.len() - 1]));
    a_read_to_end_takes_one_call(
        read,
        told.size,
        Moved { n: file.len() as usize, bytes: file, stat: Ok(told) },
    );
}

/// The handle is open on the descriptor `fd` and takes operations.
spec fn open_on<'a, C>(v: DriverView<'a, C>, handle: u64, fd: i32) -> bool {
    is_open(v, handle) && v.files[handle].fd == fd
}

/// An operation other than a close of the handle leaves it open.
proof fn lemma_operation_keeps<'a, C>(
    v: DriverView<'a, C>,
    new: DriverView<'a, C>,
    id: u64,
    op: Op<'a>,
    cb: C,
    unread: bool,
    stat: Result<Stat, Error>,
    effect: Option<Effect<'a, C>>,
    handle: u64,
    fd: i32,
)
    requires
        open_on(v, handle, fd),
        v.handles(new, id, op, cb, unread, stat, effect),
        !(op matches Op::Close { handle: h } && h == handle),
    ensures
        open_on(new, handle, fd),
{
}

/// The end of a job leaves the handle open.
proof fn lemma_release_keeps<'a, C>(v: DriverView<'a, C>, gone: Option<u64>, handle: u64, fd: i32)
    requires
        open_on(v, handle, fd),
    ensures
        open_on(v.released(gone), handle, fd),
{
}

/// A cancel request leaves the handle open.
proof fn lemma_cancel_keeps<'a, C>(
    v: DriverView<'a, C>,
    new: DriverView<'a, C>,
    id: u64,
    unread: bool,
    step: CancelStep<C>,
    handle: u64,
    fd: i32,
)
    requires
        open_on(v, handle, fd),
        v.cancels(new, id, unread, step),
    ensures
        open_on(new, handle, fd),
{
    let q = find(v.queue, id, 0);
    let rest = DriverView { queue: v.queue.remove(q), ..v };
    lemma_release_keeps(rest, v.queue[q].kind@.handle(), handle, fd);
}

/// An open that came back leaves the handle open.
proof fn lemma_open_keeps<'a, C>(
    v: DriverView<'a, C>,
    new: DriverView<'a, C>,
    pending: PendingOpen<'a, C>,
    result: Result<(i32, u64), Error>,
    settled: Option<Settlement<C>>,
    handle: u64,
    fd: i32,
)
    requires
        open_on(v, handle, fd),
        handle < v.next_id,
        v.continues(new, pending, result, settled),
    ensures
        open_on(new, handle, fd),
{
}

/// A chunk that came back leaves the handle open.
proof fn lemma_chunk_keeps<'a, C>(
    v: DriverView<'a, C>,
    new: DriverView<'a, C>,
    job: Job<'a, C>,
    chunk: Chunk,
    unread: bool,
    after: AfterChunk<C>,
    handle: u64,
    fd: i32,
)
    requires
        open_on(v, handle, fd),
        v.advances(new, job, chunk, unread, after),
    ensures
        open_on(new, handle, fd),
{
    lemma_release_keeps(v, job.kind@.handle(), handle, fd);
}

/// The kernel's word on a request leaves the handle open.
proof fn lemma_reap_keeps<'a, C>(
    v: DriverView<'a, C>,
    new: DriverView<'a, C>,
    index: usize,
    err: i32,
    chunk: Chunk,
    unread: bool,
    after: AfterReap<C>,
    handle: u64,
    fd: i32,
)
    requires
        open_on(v, handle, fd),
        v.reaps(new, index, err, chunk, unread, after),
    ensures
        open_on(new, handle, fd),
{
    if err != v.errno.in_progress {
        let job = v.inflight[index as int];
        let rest = DriverView {
            inflight: v.inflight.update(index as int, v.inflight.last()).drop_last(),
            progress: true,
            ..v
        };
        assert(open_on(rest, handle, fd));
        lemma_release_keeps(rest, job.kind@.handle(), handle, fd);
        if err == 0 {
            match after {
                AfterReap::Running => {},
                AfterReap::Requeued => lemma_chunk_keeps(
                    rest,
                    new,
                    job,
                    chunk,
                    unread,
                    AfterChunk::Requeued,
                    handle,
                    fd,
                ),
                AfterReap::Finished(finish) => lemma_chunk_keeps(
                    rest,
                    new,
                    job,
                    chunk,
                    unread,
                    AfterChunk::Finished(finish),
                    handle,
                    fd,
                ),
            }
        }
    }
}

/// What happens to the job on its way to the kernel leaves the handle open.
proof fn lemma_submission_keeps<'a, C>(
    v: DriverView<'a, C>,
    new: DriverView<'a, C>,
    event: Event<'a, C>,
    handle: u64,
    fd: i32,
)
    requires
        open_on(v, handle, fd),
        event is Submitted || event is Blocked,
        v.does(new, event),
    ensures
        open_on(new, handle, fd),
{
    let rest = DriverView { submitting: None, ..v };
    assert(open_on(rest, handle, fd));
    lemma_release_keeps(rest, v.submitting->0.kind@.handle(), handle, fd);
}

/// A handle stays open, on its own descriptor, until it is closed: no event of
/// the driver but a close of that very handle changes what it is open on, or
/// makes it take no more operations.
pub proof fn a_handle_stays_open_until_it_is_closed<'a, C>(
    v: DriverView<'a, C>,
    new: DriverView<'a, C>,
    event: Event<'a, C>,
    handle: u64,
)
    requires
        v.wf(),
        v.does(new, event),
        is_open(v, handle),
        !(event matches Event::Message { msg: Msg::Submit { op: Op::Close { handle: h }, .. }, .. }
            && h == handle),
    ensures
        is_open(new, handle),
        new.files[handle].fd == v.files[handle].fd,
{
    let fd = v.files[handle].fd;
    assert(handle < v.next_id);
    match event {
        Event::Message { msg, unread, stat, after } => {
            let woken = DriverView { progress: true, ..v };
            assert(open_on(woken, handle, fd));
            match msg {
                Msg::Submit { id, op, cb } => lemma_operation_keeps(
                    woken,
                    new,
                    id,
                    op,
                    cb,
                    unread,
                    stat,
                    after->Op_0,
                    handle,
                    fd,
                ),
                Msg::Cancel { id } => lemma_cancel_keeps(
                    woken,
                    new,
                    id,
                    unread,
                    after->Cancel_0,
                    handle,
                    fd,
                ),
            }
        },
        Event::OpenedHere { pending, result, settled } => lemma_open_keeps(
            v,
            new,
            pending,
            result,
            settled,
            handle,
            fd,
        ),
        Event::OpenedAway { opened, after } => {
            let back = DriverView {
                progress: true,
                pending_opens: v.pending_opens.remove(opened.pending.id),
                cancelled_opens: v.cancelled_opens.remove(opened.pending.id),
                ..v
            };
            assert(open_on(back, handle, fd));
            match after {
                AfterReturn::Settled(s) => lemma_open_keeps(
                    back,
                    new,
                    opened.pending,
                    opened.result,
                    Some(s),
                    handle,
                    fd,
                ),
                AfterReturn::Queued => lemma_open_keeps(
                    back,
                    new,
                    opened.pending,
                    opened.result,
                    None,
                    handle,
                    fd,
                ),
                AfterReturn::Cancelled { .. } => {},
            }
        },
        Event::Reaped { index, err, chunk, unread, after } => lemma_reap_keeps(
            v,
            new,
            index,
            err,
            chunk,
            unread,
            after,
            handle,
            fd,
        ),
        Event::Submitted { .. } | Event::Blocked { .. } => lemma_submission_keeps(
            v,
            new,
            event,
            handle,
            fd,
        ),
        _ => {},
    }
}

/// A descriptor that is registered is a new handle, open on it, and the reply
/// tells its id, its size and the descriptor.
pub proof fn a_registered_descriptor_is_a_handle<'a, C>(
    v: DriverView<'a, C>,
    new: DriverView<'a, C>,
    fd: i32,
    size: u64,
    reply: Reply,
)
    requires
        v.takes(new, Event::Registered { fd, size, reply }),
    ensures
        reply matches Reply::Handle { id, size: told, fd: raw } && {
            &&& told == size && raw == fd
            &&& !v.files.contains_key(id)
            &&& is_open(new, id) && new.files[id].fd == fd
        },
{
}

/// What the helpers take is theirs, and what they do not take comes back to be
/// done on this thread: then it is not out any more, and everything else that
/// is out still is.
pub proof fn what_no_helper_takes_comes_back<'a, C>(
    v: DriverView<'a, C>,
    new: DriverView<'a, C>,
    sent: Result<(), HelperJob<'a, C>>,
    back: Option<HelperJob<'a, C>>,
)
    requires
        v.takes(new, Event::HandedOver { sent, back }),
    ensures
        sent is Ok ==> back is None && new == v,
        sent matches Err(job) ==> {
            &&& back matches Some(b) && b == job
            &&& job matches HelperJob::Open(open) ==> !new.pending_opens.contains(open.pending.id)
            &&& forall|id: u64|
                !(job matches HelperJob::Open(open) && open.pending.id == id) ==> (
                #[trigger] new.pending_opens.contains(id) <==> v.pending_opens.contains(id))
        },
{
}

/// Without helpers no open is waited for, and without submitters no submission
/// is: the thread never sleeps for what cannot come. Neither loses a job or a
/// handle.
pub proof fn nothing_is_waited_for_that_cannot_come<'a, C>(
    v: DriverView<'a, C>,
    new: DriverView<'a, C>,
    event: Event<'a, C>,
)
    requires
        event is HelpersLost || event is SubmittersLost,
        v.takes(new, event),
    ensures
        event is HelpersLost ==> !(new.waits() is Opened) && !(new.waits() is Either),
        event is SubmittersLost ==> !(new.waits() is Submission) && !(new.waits() is Either),
        new.queue == v.queue,
        new.inflight == v.inflight,
        new.submitting == v.submitting,
        new.files == v.files,
{
}

/// The wait for completions starts anew with every pass: the first pass that
/// moves nothing makes it no shorter, a pass in which a message was taken makes
/// it the least.
pub proof fn a_pass_sets_the_next_wait<'a, C>(
    v: DriverView<'a, C>,
    new: DriverView<'a, C>,
    more: DriverView<'a, C>,
)
    requires
        v.takes(new, Event::PassEnded),
        new.takes(more, Event::PassEnded),
    ensures
        v.progress ==> new.suspend_ns == 20_000,
        !v.progress ==> v.suspend_ns <= new.suspend_ns <= 160_000,
        new.suspend_ns == 2 * v.suspend_ns || v.progress || new.suspend_ns == 160_000,
        more.suspend_ns == 2 * new.suspend_ns || more.suspend_ns == 160_000,
{
}

/// A message is what moves the driver: it makes the next wait short.
pub proof fn a_message_is_progress<'a, C>(
    v: DriverView<'a, C>,
    new: DriverView<'a, C>,
    msg: Msg<'a, C>,
    unread: bool,
    stat: Result<Stat, Error>,
    after: AfterMsg<'a, C>,
)
    requires
        v.takes_message(new, msg, unread, stat, after),
    ensures
        new.progress,
        after is Cancel <==> msg is Cancel,
{
}

/// What the system says of a file is asked for just where it matters, and of
/// the handle's own descriptor: for the size, for the room of a read to end,
/// and for the end of an append of nothing.
pub proof fn the_size_is_asked_for_where_it_matters<'a, C>(v: DriverView<'a, C>, op: Op<'a>)
    ensures
        v.asks_stat(op) is Some <==> (op.handle() matches Some(h) && is_open(v, h)) && match op {
            Op::Size { .. } | Op::ReadToEnd { .. } => true,
            Op::WriteAt { data, append, .. } => append && data@.len() == 0,
            _ => false,
        },
        v.asks_stat(op) matches Some(fd) ==> (op.handle() matches Some(h) && fd == v.files[h].fd),
{
}

/// The oldest job of the queue is the next to go to the kernel, as soon as the
/// kernel has room for it, and the call is its own.
pub proof fn the_oldest_job_goes_first<'a, C>(
    v: DriverView<'a, C>,
    new: DriverView<'a, C>,
    call: Option<Transfer>,
)
    requires
        v.starts_next(new, call),
    ensures
        call is Some <==> v.inflight.len() < v.max_inflight && v.queue.len() > 0,
        call is None ==> new == v,
        call matches Some(transfer) ==> {
            &&& new.submitting == Some(v.queue[0])
            &&& new.queue == v.queue.skip(1)
            &&& new.inflight == v.inflight
            &&& match (transfer, v.queue[0].kind@) {
                (Transfer::Read { fd, .. }, JobKindView::Read(read)) => fd == read.fd,
                (Transfer::Write { fd, .. }, JobKindView::Write(write)) => fd == write.fd,
                (Transfer::Fsync { fd }, JobKindView::Fsync(fsync)) => fd == fsync.fd,
                _ => false,
            }
        },
{
}

} // verus!
