//! The runtime backend with the threads around it: the calls of its table, the
//! submission front, the channel, and the tasks. No handle id is given out
//! twice, and every callback that is submitted is called once, with the result
//! of its own operation.

use vstd::multiset::Multiset;
use vstd::prelude::*;

use crate::error::{bad_handle_spec, cancelled_spec, driver_gone_spec, Error};
use crate::event::handle_in;
use crate::host::Errno;
use crate::op::{outcome, Msg, Op, Reply, ReplyView};
use crate::submit::id_after;
use crate::system::{gathered, lemma_gathered_push, lemma_gathered_remove};
use crate::task::{begins, Outcome, Progress, RuntimeView};
use crate::task_run::TaskRun;

verus! {

/// One call of a method of [`Runtime`](crate::task::Runtime), with what goes in
/// and what comes out.
#[allow(inconsistent_fields)]
#[verifier::reject_recursive_types(F)]
pub enum TableEvent<'a, F> {
    /// [`Runtime::enter`](crate::task::Runtime::enter).
    Entered { id: u64, op: Op<'a>, open_id: Option<u64> },
    /// [`Runtime::start`](crate::task::Runtime::start).
    Started { id: u64, op: Op<'a>, errno: Errno, file: Result<Option<F>, Error> },
    /// [`Runtime::cancel`](crate::task::Runtime::cancel).
    Cancelled { id: u64 },
    /// [`Runtime::settled`](crate::task::Runtime::settled).
    Settled { id: u64 },
    /// [`Runtime::register`](crate::task::Runtime::register).
    Registered { id: u64, file: F },
    /// [`Runtime::hand_off`](crate::task::Runtime::hand_off).
    HandedOff { size: u64, fd: i64, file: F, reply: Reply },
}

impl<'a, F> TableEvent<'a, F> {
    /// The handle id that the call gives out, if it gives one.
    pub open spec fn gives(self) -> Option<u64> {
        match self {
            TableEvent::Entered { open_id, .. } => open_id,
            TableEvent::HandedOff { reply, .. } => handle_in(Ok(reply)),
            _ => None,
        }
    }
}

impl<F> RuntimeView<F> {
    /// Whether the method of the event may be called.
    pub open spec fn admits<'a>(self, event: TableEvent<'a, F>) -> bool {
        match event {
            TableEvent::Entered { op, .. } => op is Open ==> self.next_id < u64::MAX,
            TableEvent::Registered { id, .. } => 1 <= id < self.next_id,
            TableEvent::HandedOff { .. } => self.next_id < u64::MAX,
            _ => true,
        }
    }

    /// What the method of the event does to the table and brings out of it.
    pub open spec fn does<'a>(self, new: Self, event: TableEvent<'a, F>) -> bool {
        match event {
            TableEvent::Entered { id, op, open_id } => {
                let running = self.running.insert(id);
                if op is Open {
                    &&& open_id == Some(self.next_id)
                    &&& new == (RuntimeView {
                        next_id: (self.next_id + 1) as u64,
                        running,
                        ..self
                    })
                } else {
                    open_id is None && new == (RuntimeView { running, ..self })
                }
            },
            TableEvent::Started { id, op, errno, file } => if self.cancelled.contains(id) {
                file == Err::<Option<F>, Error>(cancelled_spec(errno)) && new == self
            } else {
                match op.handle() {
                    None => file == Ok::<Option<F>, Error>(None) && new == self,
                    Some(h) => if !self.files.contains_key(h) {
                        file == Err::<Option<F>, Error>(bad_handle_spec()) && new == self
                    } else if op is Close {
                        &&& file == Ok::<Option<F>, Error>(Some(self.files[h]))
                        &&& new == (RuntimeView { files: self.files.remove(h), ..self })
                    } else {
                        file matches Ok(Some(_)) && new == self
                    },
                }
            },
            TableEvent::Cancelled { id } => new == (if self.running.contains(id) {
                RuntimeView { cancelled: self.cancelled.insert(id), ..self }
            } else {
                self
            }),
            TableEvent::Settled { id } => new == (RuntimeView {
                running: self.running.remove(id),
                cancelled: self.cancelled.remove(id),
                ..self
            }),
            TableEvent::Registered { id, file } => new == (RuntimeView {
                files: self.files.insert(id, file),
                ..self
            }),
            TableEvent::HandedOff { size, fd, file, reply } => {
                &&& reply@ == (ReplyView::Handle { id: self.next_id, size, fd })
                &&& new == (RuntimeView {
                    files: self.files.insert(self.next_id, file),
                    next_id: (self.next_id + 1) as u64,
                    ..self
                })
            },
        }
    }

    /// The method of the event, called on a table in order, leads to `new`.
    pub open spec fn takes<'a>(self, new: Self, event: TableEvent<'a, F>) -> bool {
        &&& self.wf()
        &&& self.admits(event)
        &&& new.wf()
        &&& self.does(new, event)
    }
}

/// A run of the table: the states, and the calls that join them.
#[verifier::reject_recursive_types(F)]
pub struct TableRun<'a, F> {
    pub states: Seq<RuntimeView<F>>,
    pub events: Seq<TableEvent<'a, F>>,
}

impl<'a, F> TableRun<'a, F> {
    /// The call number `i` leads from one state to the next.
    pub open spec fn steps(self, i: int) -> bool {
        self.states[i].takes(self.states[i + 1], self.events[i])
    }

    /// The states are joined by the calls.
    pub open spec fn runs(self) -> bool {
        &&& self.states.len() == self.events.len() + 1
        &&& forall|i: int| 0 <= i < self.events.len() ==> #[trigger] self.steps(i)
    }
}

/// The ids never go back over a run.
proof fn lemma_ids_ascend<'a, F>(run: TableRun<'a, F>, i: int, j: int)
    requires
        run.runs(),
        0 <= i <= j < run.states.len(),
    ensures
        run.states[i].next_id <= run.states[j].next_id,
    decreases j - i,
{
    if i < j {
        lemma_ids_ascend(run, i, j - 1);
        assert(run.steps(j - 1));
    }
}

/// No two handle ids that the table gives out are the same, however far apart
/// and whether or not the first handle is closed by then: a later one is
/// greater.
pub proof fn no_handle_id_is_given_twice<'a, F>(run: TableRun<'a, F>, i: int, j: int)
    requires
        run.runs(),
        0 <= i < j < run.events.len(),
        run.events[i].gives() is Some,
        run.events[j].gives() is Some,
    ensures
        run.events[i].gives()->0 < run.events[j].gives()->0,
{
    assert(run.steps(i) && run.steps(j));
    lemma_ids_ascend(run, i + 1, j);
}

/// Whether the call takes the handle `h` out of the table or puts another file
/// under it.
pub open spec fn disturbs<'a, F>(event: TableEvent<'a, F>, h: u64) -> bool {
    match event {
        TableEvent::Started { op: Op::Close { handle }, .. } => handle == h,
        TableEvent::Registered { id, .. } => id == h,
        _ => false,
    }
}

/// A file that is kept under a handle stays there until the handle is closed,
/// whatever happens to other handles and whatever is cancelled or settles; and
/// an operation on the handle that is not cancelled finds it open.
pub proof fn a_handle_stays_open_until_it_is_closed<'a, F>(
    run: TableRun<'a, F>,
    i: int,
    j: int,
    h: u64,
    file: F,
)
    requires
        run.runs(),
        0 <= i < j < run.states.len(),
        match run.events[i] {
            TableEvent::Registered { id, file: f } => id == h && f == file,
            TableEvent::HandedOff { reply, file: f, .. } => (reply matches Reply::Handle { id, .. }
                && id == h) && f == file,
            _ => false,
        },
        forall|k: int| i < k < j ==> !disturbs(#[trigger] run.events[k], h),
    ensures
        run.states[j].files.contains_key(h),
        run.states[j].files[h] == file,
        j < run.events.len() ==> (run.events[j] matches TableEvent::Started {
            id,
            op,
            file: found,
            ..
        } ==> (op.handle() == Some(h) && !run.states[j].cancelled.contains(id) ==> (
        found matches Ok(Some(_))))),
    decreases j - i,
{
    assert(run.steps(j - 1));
    if j > i + 1 {
        a_handle_stays_open_until_it_is_closed(run, i, j - 1, h, file);
    }
    if j < run.events.len() {
        assert(run.steps(j));
    }
}

/// A file that is handed off is kept under a handle that nothing was kept
/// under, and the reply tells its id, its size and its descriptor.
pub proof fn a_file_that_is_handed_off_is_a_handle<F>(
    v: RuntimeView<F>,
    new: RuntimeView<F>,
    size: u64,
    fd: i64,
    file: F,
    reply: Reply,
)
    requires
        v.takes(new, TableEvent::HandedOff { size, fd, file, reply }),
    ensures
        reply matches Reply::Handle { id, size: told, fd: raw } && {
            &&& told == size && raw == fd
            &&& !v.files.contains_key(id)
            &&& new.files.contains_key(id) && new.files[id] == file
            &&& forall|other: u64|
                other != id ==> (#[trigger] new.files.contains_key(other)
                    <==> v.files.contains_key(other))
        },
{
}

/// A close takes its own handle out of the table, and no other, and gets the
/// file that was kept under it; whatever is started on that handle next is
/// refused and changes nothing.
pub proof fn a_closed_handle_is_gone<'a, F>(
    v: RuntimeView<F>,
    new: RuntimeView<F>,
    later: RuntimeView<F>,
    id: u64,
    handle: u64,
    errno: Errno,
    file: F,
    next: u64,
    op: Op<'a>,
    found: Result<Option<F>, Error>,
)
    requires
        v.takes(
            new,
            TableEvent::Started { id, op: Op::Close { handle }, errno, file: Ok(Some(file)) },
        ),
        op.handle() == Some(handle),
        !new.cancelled.contains(next),
        new.takes(later, TableEvent::Started { id: next, op, errno, file: found }),
    ensures
        v.files.contains_key(handle) && v.files[handle] == file,
        !new.files.contains_key(handle),
        forall|other: u64|
            other != handle ==> (#[trigger] new.files.contains_key(other)
                <==> v.files.contains_key(other)),
        forall|other: u64| #[trigger]
            new.files.contains_key(other) ==> new.files[other] == v.files[other],
        later == new,
        found matches Err(Error::Custom { kind, .. }) && kind is InvalidInput,
{
}

/// A cancel request that comes before its operation starts is what the
/// operation is answered with, and then no handle is touched. One for an
/// operation that has settled, or that never was, changes nothing; and what has
/// settled is not marked any more, should its id come again.
pub proof fn a_cancel_request_is_for_its_operation_only<'a, F>(
    v: RuntimeView<F>,
    marked: RuntimeView<F>,
    started: RuntimeView<F>,
    cleared: RuntimeView<F>,
    id: u64,
    op: Op<'a>,
    errno: Errno,
    file: Result<Option<F>, Error>,
)
    requires
        v.takes(marked, TableEvent::Cancelled { id }),
        marked.takes(started, TableEvent::Started { id, op, errno, file }),
        started.takes(cleared, TableEvent::Settled { id }),
    ensures
        v.running.contains(id) ==> file == Err::<Option<F>, Error>(Error::Os(errno.cancelled))
            && started == marked,
        !v.running.contains(id) ==> marked == v,
        marked.files == v.files,
        marked.running == v.running,
        forall|other: u64|
            other != id ==> (#[trigger] marked.cancelled.contains(other)
                <==> v.cancelled.contains(other)),
        !cleared.cancelled.contains(id),
        !cleared.running.contains(id),
        forall|other: u64|
            other != id ==> (#[trigger] cleared.running.contains(other)
                <==> started.running.contains(other)),
        cleared.files == started.files,
{
}

/// An operation that is taken in can be cancelled from then on. An open gets an
/// id set aside under which nothing is kept, and no other operation gets one.
pub proof fn an_operation_is_known_from_its_entry<'a, F>(
    v: RuntimeView<F>,
    new: RuntimeView<F>,
    marked: RuntimeView<F>,
    id: u64,
    op: Op<'a>,
    open_id: Option<u64>,
)
    requires
        v.takes(new, TableEvent::Entered { id, op, open_id }),
        new.takes(marked, TableEvent::Cancelled { id }),
    ensures
        marked.cancelled.contains(id),
        open_id is Some <==> op is Open,
        open_id matches Some(h) ==> !v.files.contains_key(h) && !new.files.contains_key(h) && h
            < new.next_id,
        new.files == v.files,
{
}

/// Where a task stands.
pub enum Phase<'a> {
    /// It was taken in, and has not started.
    Spawned,
    Running(TaskRun<'a>),
    /// It is over, and its callback is to be called.
    Over(Result<ReplyView, Error>),
}

/// A task, with the operation that it is for and the callback that waits.
pub struct TaskState<'a, C> {
    pub id: u64,
    pub op: Op<'a>,
    pub cb: C,
    pub open_id: Option<u64>,
    pub fd: i32,
    pub phase: Phase<'a>,
}

/// A callback that was called, the operation that it was submitted with, and
/// what it was called with.
pub struct Answer<'a, C> {
    pub op: Op<'a>,
    pub cb: C,
    pub result: Result<ReplyView, Error>,
}

/// The backend's thread with its tasks, and the threads that submit to it.
#[verifier::reject_recursive_types(C)]
#[verifier::reject_recursive_types(F)]
pub struct Backend<'a, C, F> {
    pub errno: Errno,
    pub next_op: u64,
    /// Whether the backend's thread is there.
    pub thread: bool,
    pub channel: Seq<Msg<'a, C>>,
    pub table: RuntimeView<F>,
    pub tasks: Seq<TaskState<'a, C>>,
    /// The operations that were submitted with their callbacks, those that were
    /// answered, and those that went down with the thread.
    pub submitted: Multiset<(Op<'a>, C)>,
    pub told: Seq<Answer<'a, C>>,
    pub lost: Multiset<(Op<'a>, C)>,
}

/// One step of one of the threads. `task` is the place of the task that it is
/// about, `new` the table after it.
#[allow(inconsistent_fields)]
#[verifier::reject_recursive_types(C)]
#[verifier::reject_recursive_types(F)]
pub enum Move<'a, C, F> {
    Submit { op: Op<'a>, cb: C },
    Cancel { id: u64 },
    /// The first message is taken in.
    Take { open_id: Option<u64>, new: RuntimeView<F> },
    /// A task starts, on the file of its handle if it works on one.
    Start {
        task: int,
        file: Result<Option<F>, Error>,
        fd: i32,
        progress: Progress<'a>,
        new: RuntimeView<F>,
    },
    /// The call that a task awaits has come back.
    Resume { task: int, outcome: Outcome, progress: Progress<'a> },
    /// A task has settled; its file is kept if it replies a handle.
    End { task: int, event: Option<TableEvent<'a, F>>, new: RuntimeView<F> },
    /// The callback is called.
    Tell { task: int, new: RuntimeView<F> },
    /// The thread is gone, with its tasks and the messages on the way to it.
    ThreadGone,
}

/// The task as it ran, with one call more.
pub open spec fn resumed<'a>(
    run: TaskRun<'a>,
    outcome: Outcome,
    cancelled: bool,
    progress: Progress<'a>,
) -> TaskRun<'a> {
    TaskRun {
        progress: run.progress.push(progress),
        outcomes: run.outcomes.push(outcome),
        cancelled: run.cancelled.push(cancelled),
        files: run.files,
    }
}

/// The task has ended with `result`: with what it settled with, or with a new
/// handle on the file that it hands off.
pub open spec fn comes_to<'a>(run: TaskRun<'a>, result: Result<ReplyView, Error>) -> bool {
    match run.progress.last() {
        Progress::Settled { result: r, .. } => outcome(r) == result,
        Progress::HandOff { size, fd } => result matches Ok(
            ReplyView::Handle { size: s, fd: f, .. },
        ) && s == size && f == fd,
        Progress::Await { .. } => false,
    }
}

/// `result` answers the operation: its own task came to it; or it was cancelled
/// before it started; or its handle, or the backend's thread, was not there.
pub open spec fn answers<'a>(op: Op<'a>, result: Result<ReplyView, Error>, errno: Errno) -> bool {
    ||| exists|run: TaskRun<'a>, open_id: Option<u64>, fd: i32| #[trigger]
        run.runs(op, open_id, fd, errno) && comes_to(run, result)
    ||| result == Err::<ReplyView, Error>(cancelled_spec(errno))
    ||| result == Err::<ReplyView, Error>(bad_handle_spec()) && op.handle() is Some
    ||| result == Err::<ReplyView, Error>(driver_gone_spec())
}

/// The operation and the callback of a message.
pub open spec fn pair_of_msg<'a, C>() -> spec_fn(Msg<'a, C>) -> Multiset<(Op<'a>, C)> {
    |msg: Msg<'a, C>|
        match msg {
            Msg::Submit { op, cb, .. } => Multiset::singleton((op, cb)),
            Msg::Cancel { .. } => Multiset::empty(),
        }
}

/// The operation and the callback of a task.
pub open spec fn pair_of_task<'a, C>() -> spec_fn(TaskState<'a, C>) -> Multiset<(Op<'a>, C)> {
    |task: TaskState<'a, C>| Multiset::singleton((task.op, task.cb))
}

/// The operation and the callback of an answer.
pub open spec fn pair_of_told<'a, C>() -> spec_fn(Answer<'a, C>) -> Multiset<(Op<'a>, C)> {
    |told: Answer<'a, C>| Multiset::singleton((told.op, told.cb))
}

/// The operation and the callback that a step submits.
pub open spec fn pair_of_move<'a, C, F>() -> spec_fn(Move<'a, C, F>) -> Multiset<(Op<'a>, C)> {
    |step: Move<'a, C, F>|
        match step {
            Move::Submit { op, cb } => Multiset::singleton((op, cb)),
            _ => Multiset::empty(),
        }
}

impl<'a, C, F> Backend<'a, C, F> {
    /// The thread is there, and nothing was submitted yet.
    pub open spec fn initial(self) -> bool {
        &&& self.next_op == 1
        &&& self.thread
        &&& self.channel.len() == 0 && self.tasks.len() == 0 && self.told.len() == 0
        &&& self.table.wf()
        &&& self.submitted == Multiset::<(Op<'a>, C)>::empty()
        &&& self.lost == Multiset::<(Op<'a>, C)>::empty()
    }

    /// Whether the step can come next.
    pub open spec fn enabled(self, step: Move<'a, C, F>) -> bool {
        match step {
            Move::Submit { .. } | Move::Cancel { .. } => true,
            Move::Take { open_id, new } => {
                &&& self.thread && self.channel.len() > 0
                &&& match self.channel[0] {
                    Msg::Submit { id, op, .. } => self.table.takes(
                        new,
                        TableEvent::Entered { id, op, open_id },
                    ),
                    Msg::Cancel { id } => self.table.takes(new, TableEvent::Cancelled { id }),
                }
            },
            Move::Start { task, file, fd, progress, new } => {
                &&& self.thread && 0 <= task < self.tasks.len()
                &&& self.tasks[task].phase is Spawned
                &&& self.tasks[task].op.wf()
                &&& self.table.takes(
                    new,
                    TableEvent::Started {
                        id: self.tasks[task].id,
                        op: self.tasks[task].op,
                        errno: self.errno,
                        file,
                    },
                )
                &&& file is Ok ==> progress.wf() && begins(
                    self.tasks[task].op,
                    self.tasks[task].open_id,
                    fd,
                    new.cancelled.contains(self.tasks[task].id),
                    self.errno,
                    progress,
                )
            },
            Move::Resume { task, outcome, progress } => {
                &&& self.thread && 0 <= task < self.tasks.len()
                &&& self.tasks[task].phase matches Phase::Running(run) && resumed(
                    run,
                    outcome,
                    self.table.cancelled.contains(self.tasks[task].id),
                    progress,
                ).steps(run.outcomes.len() as int, self.errno)
            },
            Move::End { task, event, new } => {
                &&& self.thread && 0 <= task < self.tasks.len()
                &&& self.tasks[task].phase matches Phase::Running(run) && match run.progress.last() {
                    Progress::Settled { register: Some(handle), .. } => {
                        &&& event matches Some(TableEvent::Registered { id, .. }) && id == handle
                        &&& self.table.takes(new, event->0)
                    },
                    Progress::Settled { register: None, .. } => event is None && new == self.table,
                    Progress::HandOff { size, fd } => {
                        &&& event matches Some(TableEvent::HandedOff { size: s, fd: f, .. }) && s
                            == size && f == fd
                        &&& self.table.takes(new, event->0)
                    },
                    Progress::Await { .. } => false,
                }
            },
            Move::Tell { task, new } => {
                &&& self.thread && 0 <= task < self.tasks.len()
                &&& self.tasks[task].phase is Over
                &&& self.table.takes(new, TableEvent::Settled { id: self.tasks[task].id })
            },
            Move::ThreadGone => self.thread,
        }
    }

    /// The state with the task at `task` in another phase.
    pub open spec fn with_phase(self, task: int, phase: Phase<'a>, new: RuntimeView<F>) -> Self {
        Backend {
            tasks: self.tasks.update(task, TaskState { phase, ..self.tasks[task] }),
            table: new,
            ..self
        }
    }

    /// The state after a step. A message to a thread that is gone comes back.
    pub open spec fn next(self, step: Move<'a, C, F>) -> Self {
        match step {
            Move::Submit { op, cb } => {
                let submitted = Backend {
                    next_op: id_after(self.next_op),
                    submitted: self.submitted.insert((op, cb)),
                    ..self
                };
                if self.thread {
                    Backend {
                        channel: self.channel.push(Msg::Submit { id: self.next_op, op, cb }),
                        ..submitted
                    }
                } else {
                    Backend {
                        told: self.told.push(Answer { op, cb, result: Err(driver_gone_spec()) }),
                        ..submitted
                    }
                }
            },
            Move::Cancel { id } => if self.thread {
                Backend { channel: self.channel.push(Msg::Cancel { id }), ..self }
            } else {
                self
            },
            Move::Take { open_id, new } => {
                let rest = Backend { channel: self.channel.remove(0), table: new, ..self };
                match self.channel[0] {
                    Msg::Submit { id, op, cb } => Backend {
                        tasks: self.tasks.push(
                            TaskState { id, op, cb, open_id, fd: -1i32, phase: Phase::Spawned },
                        ),
                        ..rest
                    },
                    Msg::Cancel { .. } => rest,
                }
            },
            Move::Start { task, file, fd, progress, new } => match file {
                Err(e) => self.with_phase(task, Phase::Over(Err(e)), new),
                Ok(_) => {
                    let run = TaskRun {
                        progress: seq![progress],
                        outcomes: Seq::empty(),
                        cancelled: seq![new.cancelled.contains(self.tasks[task].id)],
                        files: Seq::empty(),
                    };
                    let started = TaskState {
                        fd,
                        phase: Phase::Running(run),
                        ..self.tasks[task]
                    };
                    Backend { tasks: self.tasks.update(task, started), table: new, ..self }
                },
            },
            Move::Resume { task, outcome, progress } => match self.tasks[task].phase {
                Phase::Running(run) => self.with_phase(
                    task,
                    Phase::Running(
                        resumed(
                            run,
                            outcome,
                            self.table.cancelled.contains(self.tasks[task].id),
                            progress,
                        ),
                    ),
                    self.table,
                ),
                _ => self,
            },
            Move::End { task, event, new } => match self.tasks[task].phase {
                Phase::Running(run) => {
                    let result = match (run.progress.last(), event) {
                        (_, Some(TableEvent::HandedOff { reply, .. })) => Ok(reply@),
                        (Progress::Settled { result, .. }, _) => outcome(result),
                        _ => Err(driver_gone_spec()),
                    };
                    self.with_phase(task, Phase::Over(result), new)
                },
                _ => self,
            },
            Move::Tell { task, new } => match self.tasks[task].phase {
                Phase::Over(result) => Backend {
                    tasks: self.tasks.remove(task),
                    told: self.told.push(
                        Answer { op: self.tasks[task].op, cb: self.tasks[task].cb, result },
                    ),
                    table: new,
                    ..self
                },
                _ => self,
            },
            Move::ThreadGone => Backend {
                thread: false,
                channel: Seq::empty(),
                tasks: Seq::empty(),
                lost: self.lost.add(self.on_its_way()),
                ..self
            },
        }
    }

    /// The operations that are on their way, with their callbacks.
    pub open spec fn on_its_way(self) -> Multiset<(Op<'a>, C)> {
        gathered(self.channel, pair_of_msg()).add(gathered(self.tasks, pair_of_task()))
    }

    /// Every operation that was submitted was answered, is on its way, or went
    /// down with the thread.
    pub open spec fn conserves(self) -> bool {
        self.submitted == gathered(self.told, pair_of_told()).add(self.on_its_way()).add(self.lost)
    }

    /// The task at `i` is that of its operation.
    pub open spec fn fits_at(self, i: int) -> bool {
        let task = self.tasks[i];
        match task.phase {
            Phase::Spawned => true,
            Phase::Running(run) => run.runs(task.op, task.open_id, task.fd, self.errno),
            Phase::Over(result) => answers(task.op, result, self.errno),
        }
    }

    /// Every task is that of its operation, and every callback that was called
    /// was answered fittingly.
    pub open spec fn fits(self) -> bool {
        &&& forall|i: int| 0 <= i < self.tasks.len() ==> #[trigger] self.fits_at(i)
        &&& forall|i: int| 0 <= i < self.told.len() ==> answers(
            (#[trigger] self.told[i]).op,
            self.told[i].result,
            self.errno,
        )
    }

    /// Whether `steps` can happen one after the other.
    pub open spec fn runs(self, steps: Seq<Move<'a, C, F>>) -> bool
        decreases steps.len(),
    {
        steps.len() == 0 || {
            &&& self.runs(steps.drop_last())
            &&& self.end(steps.drop_last()).enabled(steps.last())
        }
    }

    /// The state after `steps`.
    pub open spec fn end(self, steps: Seq<Move<'a, C, F>>) -> Self
        decreases steps.len(),
    {
        if steps.len() == 0 {
            self
        } else {
            self.end(steps.drop_last()).next(steps.last())
        }
    }
}

/// A task in another phase is on its way as before.
proof fn lemma_phase_conserves<'a, C>(tasks: Seq<TaskState<'a, C>>, i: int, task: TaskState<'a, C>)
    requires
        0 <= i < tasks.len(),
        task.op == tasks[i].op,
        task.cb == tasks[i].cb,
    ensures
        gathered(tasks.update(i, task), pair_of_task()) == gathered(tasks, pair_of_task()),
{
    lemma_gathered_remove(tasks, i, pair_of_task::<'a, C>());
    lemma_gathered_remove(tasks.update(i, task), i, pair_of_task::<'a, C>());
    assert(tasks.update(i, task).remove(i) =~= tasks.remove(i));
}

/// Every step conserves the operations.
proof fn lemma_step_conserves<'a, C, F>(b: Backend<'a, C, F>, step: Move<'a, C, F>)
    requires
        b.conserves(),
        b.enabled(step),
    ensures
        b.next(step).conserves(),
{
    let next = b.next(step);
    let of_msg = pair_of_msg::<'a, C>();
    let of_task = pair_of_task::<'a, C>();
    let of_told = pair_of_told::<'a, C>();
    match step {
        Move::Submit { op, cb } => {
            lemma_gathered_push(b.channel, Msg::Submit { id: b.next_op, op, cb }, of_msg);
            lemma_gathered_push(b.told, Answer { op, cb, result: Err(driver_gone_spec()) }, of_told);
        },
        Move::Cancel { id } => lemma_gathered_push(b.channel, Msg::Cancel { id }, of_msg),
        Move::Take { .. } => {
            lemma_gathered_remove(b.channel, 0, of_msg);
            if b.channel[0] is Submit {
                lemma_gathered_push(b.tasks, next.tasks.last(), of_task);
                assert(next.tasks =~= b.tasks.push(next.tasks.last()));
            }
        },
        Move::Start { task, .. } | Move::Resume { task, .. } | Move::End { task, .. } => {
            lemma_phase_conserves(b.tasks, task, next.tasks[task]);
            assert(next.tasks =~= b.tasks.update(task, next.tasks[task]));
        },
        Move::Tell { task, .. } => {
            lemma_gathered_remove(b.tasks, task, of_task);
            lemma_gathered_push(b.told, next.told.last(), of_told);
            assert(next.told =~= b.told.push(next.told.last()));
        },
        Move::ThreadGone => {},
    }
    assert(next.submitted =~= gathered(next.told, of_told).add(next.on_its_way()).add(next.lost));
}

/// Every step leaves everything fitting.
proof fn lemma_step_fits<'a, C, F>(b: Backend<'a, C, F>, step: Move<'a, C, F>)
    requires
        b.fits(),
        b.enabled(step),
    ensures
        b.next(step).fits(),
{
    let next = b.next(step);
    match step {
        Move::Start { task, .. } | Move::Resume { task, .. } | Move::End { task, .. } => {
            assert(b.fits_at(task));
            let state = next.tasks[task];
            match state.phase {
                Phase::Running(run) => {
                    if let Phase::Running(was) = b.tasks[task].phase {
                        let n = was.outcomes.len() as int;
                        assert forall|i: int| 0 <= i < run.outcomes.len() implies #[trigger] run.steps(
                            i,
                            b.errno,
                        ) by {
                            if i < n {
                                assert(was.steps(i, b.errno));
                            }
                        }
                    }
                    assert(run.runs(state.op, state.open_id, state.fd, b.errno));
                },
                Phase::Over(result) => {
                    if let Phase::Running(was) = b.tasks[task].phase {
                        assert(was.runs(state.op, state.open_id, state.fd, b.errno));
                        assert(comes_to(was, result));
                    }
                },
                Phase::Spawned => {},
            }
            assert(next.fits_at(task));
            assert forall|i: int| 0 <= i < next.tasks.len() implies #[trigger] next.fits_at(i) by {
                assert(b.fits_at(i));
            }
        },
        Move::Tell { task, .. } => {
            assert(b.fits_at(task));
            assert forall|i: int| 0 <= i < next.tasks.len() implies #[trigger] next.fits_at(i) by {
                if i < task {
                    assert(b.fits_at(i));
                } else {
                    assert(b.fits_at(i + 1));
                }
            }
        },
        _ => {
            assert forall|i: int| 0 <= i < next.tasks.len() implies #[trigger] next.fits_at(i) by {
                if i < b.tasks.len() {
                    assert(b.fits_at(i));
                }
            }
        },
    }
}

/// Whatever order the threads and the tasks act in, every operation that is
/// submitted is answered once: those that were answered, those on their way,
/// and those that went down with the thread are together those that were
/// submitted, each with its own callback. None goes down while the thread is
/// there; and with nothing on its way exactly those that were submitted were
/// answered. Each was answered with what its own task came to, as cancelled, or
/// because its handle or the thread was not there.
pub proof fn every_callback_is_called_once_with_its_own_result<'a, C, F>(
    start: Backend<'a, C, F>,
    steps: Seq<Move<'a, C, F>>,
)
    requires
        start.initial(),
        start.runs(steps),
    ensures
        ({
            let end = start.end(steps);
            let submitted = gathered(steps, pair_of_move());
            let told = gathered(end.told, pair_of_told());
            &&& submitted == told.add(end.on_its_way()).add(end.lost)
            &&& end.thread ==> end.lost == Multiset::<(Op<'a>, C)>::empty()
            &&& end.thread && end.on_its_way() == Multiset::<(Op<'a>, C)>::empty() ==> told
                == submitted
            &&& end.fits()
            &&& end.conserves()
            &&& end.submitted == submitted
        }),
    decreases steps.len(),
{
    let end = start.end(steps);
    let none = Multiset::<(Op<'a>, C)>::empty();
    let told = gathered(end.told, pair_of_told());
    if steps.len() == 0 {
        assert(told.add(end.on_its_way()).add(end.lost) =~= none);
        assert(gathered(steps, pair_of_move::<'a, C, F>()) == none);
    } else {
        let s = start.end(steps.drop_last());
        every_callback_is_called_once_with_its_own_result(start, steps.drop_last());
        lemma_step_conserves(s, steps.last());
        lemma_step_fits(s, steps.last());
        assert(end.submitted =~= gathered(steps, pair_of_move()));
    }
    assert(told.add(none).add(none) =~= told);
}

} // verus!
