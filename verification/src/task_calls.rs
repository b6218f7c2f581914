//! Which calls the task of an operation makes, on which file and with which
//! options, and which of them have gone well once the operation is answered.

use std::path::PathBuf;

use vstd::prelude::*;

use crate::error::Error;
use crate::host::Errno;
use crate::job::{ReadBufView, Target, Want};
use crate::op::{outcome as op_outcome, payloads_fit, Dest, Op, OpenSpec, Reply, ReplyView};
use crate::task::{begins, continues, failure, Call, Outcome, Progress, Stage};
use crate::task_run::TaskRun;

verus! {

/// Whether the system can open a path with the options `spec`, `there` being
/// what the file behind it holds, `None` if there is no file: a missing file
/// has to be asked to be made, and one that is there must not be asked to be
/// new.
pub open spec fn admits(spec: OpenSpec, there: Option<Seq<u8>>) -> bool {
    &&& spec.read || spec.write || spec.append
    &&& there is None ==> spec.create || spec.create_new
    &&& there is Some ==> !spec.create_new
}

/// What the file behind a path holds once it is open with the options `spec`:
/// nothing if it was not there or was to be cut, else what it held.
pub open spec fn opened(spec: OpenSpec, there: Option<Seq<u8>>) -> Seq<u8> {
    match there {
        Some(file) if !spec.truncate => file,
        _ => Seq::empty(),
    }
}

/// What a file holds once its length is set to `size`: its bytes up to there,
/// and zeros behind its end.
pub open spec fn resized(file: Seq<u8>, size: int) -> Seq<u8> {
    Seq::new(
        size as nat,
        |i: int|
            if i < file.len() {
                file[i]
            } else {
                0
            },
    )
}

/// Whether a call is one that an operation asks for: on its own path with its
/// own options, within its own range, with its own payload.
pub open spec fn asks_for<'a>(op: Op<'a>, call: Call<'a>) -> bool {
    match op {
        Op::Nop => false,
        Op::Open { path, spec } => match call {
            Call::Open { path: p, spec: s } => p == path && s == spec,
            _ => call is Metadata,
        },
        Op::ReadFile { path, .. } => match call {
            Call::Open { path: p, spec: s } => {
                &&& p == path
                &&& s.read
                &&& !(s.write || s.append || s.truncate || s.create || s.create_new)
            },
            Call::ReadToEnd { pos, .. } => pos == 0,
            _ => call is Metadata || call is Close,
        },
        Op::WriteFile { path, data } => match call {
            Call::Open { path: p, spec: s } => {
                &&& p == path
                &&& s.write && s.create && s.truncate
                &&& !(s.read || s.append || s.create_new)
            },
            Call::WriteAll { pos, data: d } => pos == 0 && d == data,
            _ => call is Close,
        },
        Op::ReadAt { pos, dest, .. } => call matches Call::Read { offset, target, len } && {
            &&& pos <= offset
            &&& offset + len <= pos + dest.len()
            &&& match (dest, target) {
                (Dest::Alloc { .. }, Target::Fresh) => true,
                (Dest::Into { addr, .. }, Target::At(a)) => a - addr == offset - pos,
                _ => false,
            }
        },
        Op::ReadToEnd { pos, .. } => match call {
            Call::ReadToEnd { pos: p, .. } => p == pos,
            _ => call is Metadata,
        },
        Op::WriteAt { pos, data, append, .. } => match call {
            Call::WriteAll { pos: p, data: d } => !append && p == pos && d == data,
            Call::Append { data: d } => append && d == data,
            _ => append && call is Metadata,
        },
        Op::Close { .. } => call is Close,
        Op::Sync { data_only, .. } => if data_only {
            call is SyncData
        } else {
            call is SyncAll
        },
        Op::SetLen { size, .. } => call matches Call::SetLen { size: s } && s == size,
        Op::Size { .. } => call is Metadata,
    }
}

/// Whether a stage is one of an operation, for what comes behind it.
spec fn belongs<'a>(op: Op<'a>, open_id: Option<u64>, stage: Stage<'a>) -> bool {
    match stage {
        Stage::Opening { id } => op is Open && id == open_id->0,
        Stage::Sizing { id, .. } => op is Open && id == open_id->0,
        Stage::Reading(job) => op matches Op::ReadAt { pos, dest, .. } && {
            &&& job@.pos == pos
            &&& job@.want == Want::Exact(dest.len())
            &&& match (dest, job@.buf) {
                (Dest::Alloc { .. }, ReadBufView::Owned { .. }) => true,
                (Dest::Into { addr, .. }, ReadBufView::External { addr: a, .. }) => a == addr,
                _ => false,
            }
        },
        Stage::FindingEnd { pos } => op matches Op::ReadToEnd { pos: p, .. } && p == pos,
        Stage::ReadingEnd => op is ReadToEnd,
        Stage::Writing { n, pos } => op matches Op::WriteAt { pos: p, data, append, .. } && !append
            && p == pos && n == data@.len(),
        Stage::Appending { n } => op matches Op::WriteAt { data, append, .. } && append && n
            == data@.len(),
        Stage::FindingAppended { n } => op matches Op::WriteAt { data, append, .. } && append && n
            == data@.len(),
        Stage::Finishing => op is Close || op is Sync || op is SetLen,
        Stage::FindingSize => op is Size,
        Stage::OpeningFile { .. } | Stage::SizingFile { .. } | Stage::ReadingFile
        | Stage::ClosingRead { .. } => op is ReadFile,
        Stage::OpeningWrite { data } => op matches Op::WriteFile { data: d, .. } && d == data,
        Stage::WritingFile { .. } | Stage::ClosingWrite { .. } => op is WriteFile,
    }
}

/// A task stands in stages of its operation only, and makes their calls.
proof fn lemma_calls_are_asked_for<'a>(
    run: TaskRun<'a>,
    op: Op<'a>,
    open_id: Option<u64>,
    fd: i32,
    errno: Errno,
    k: int,
)
    requires
        op.wf(),
        run.runs(op, open_id, fd, errno),
        0 <= k <= run.outcomes.len(),
    ensures
        run.progress[k].wf(),
        run.progress[k] matches Progress::Await { stage, call } ==> belongs(op, open_id, stage)
            && asks_for(op, call),
    decreases k,
{
    if op is WriteAt {
        payloads_fit(op->WriteAt_data);
    }
    if k > 0 {
        lemma_calls_are_asked_for(run, op, open_id, fd, errno, k - 1);
        assert(run.steps(k - 1, errno));
    }
}

/// A task makes no call but those that its operation asks for: an open opens
/// its own path with just its own options, a whole-file read opens its path for
/// reading alone and a whole-file write for writing, made if need be and cut,
/// be it there or not; a read stays in its range and in its memory, and a write
/// writes its payload at its place.
pub proof fn a_task_makes_no_call_but_its_own<'a>(
    run: TaskRun<'a>,
    op: Op<'a>,
    open_id: Option<u64>,
    fd: i32,
    errno: Errno,
    k: int,
)
    requires
        op.wf(),
        run.runs(op, open_id, fd, errno),
        0 <= k <= run.outcomes.len(),
    ensures
        run.progress[k] matches Progress::Await { call, .. } ==> asks_for(op, call),
{
    lemma_calls_are_asked_for(run, op, open_id, fd, errno, k);
}

/// The open that a whole-file write makes finds no obstacle in what is behind
/// its path: it succeeds on a file that is there as on one that is not, and the
/// file is empty then. That of a whole-file read makes no file and takes none
/// of its bytes.
pub proof fn a_whole_file_task_opens_what_it_should<'a>(
    run: TaskRun<'a>,
    op: Op<'a>,
    fd: i32,
    errno: Errno,
    there: Option<Seq<u8>>,
)
    requires
        op is ReadFile || op is WriteFile,
        run.runs(op, None, fd, errno),
    ensures
        run.progress[0] matches Progress::Await { call: Call::Open { path, spec }, .. } && match op {
            Op::WriteFile { path: p, .. } => {
                &&& path == p
                &&& admits(spec, there)
                &&& opened(spec, there) == Seq::<u8>::empty()
            },
            Op::ReadFile { path: p, .. } => {
                &&& path == p
                &&& admits(spec, there) <==> there is Some
                &&& there matches Some(file) ==> opened(spec, there) == file
            },
            _ => false,
        },
{
}

impl<'a> TaskRun<'a> {
    /// The task's first call opens a path behind which there is what `there`
    /// says: if it went well, the system could open it so, and left in the file
    /// what an open leaves.
    pub open spec fn finds(self, there: Option<Seq<u8>>) -> bool {
        self.outcomes.len() > 0 ==> match (self.progress[0], self.outcomes[0]) {
            (
                Progress::Await { call: Call::Open { spec, .. }, .. },
                Outcome::Opened(Ok(_)),
            ) => admits(spec, there) && self.files[1] == opened(spec, there),
            _ => true,
        }
    }

    /// The call number `i` is `call`, and it was done.
    pub open spec fn did(self, i: int, call: Call<'a>) -> bool {
        &&& 0 <= i < self.outcomes.len()
        &&& self.progress[i] matches Progress::Await { call: c, .. } && c == call
        &&& self.outcomes[i] matches Outcome::Done(Ok(_))
    }

    /// Setting a length left the file with that length.
    pub open spec fn resizes(self, i: int) -> bool {
        match (self.progress[i], self.outcomes[i]) {
            (
                Progress::Await { call: Call::SetLen { size }, .. },
                Outcome::Done(Ok(())),
            ) => self.files[i + 1] == resized(self.files[i], size as int),
            _ => true,
        }
    }
}

/// An open that goes well gives the handle that was set aside for it, on the
/// descriptor that the system gave. The file behind it, if there was one, is as
/// it was and its length is replied; it is empty and of length 0 if it was to
/// be cut, or was not there and was to be made. Where the options forbid what
/// is there, the open does not go well.
pub proof fn an_open_task_gives_a_handle_on_its_file<'a>(
    run: TaskRun<'a>,
    path: PathBuf,
    spec: OpenSpec,
    id: u64,
    fd: i32,
    errno: Errno,
    there: Option<Seq<u8>>,
    reply: Reply,
    register: Option<u64>,
)
    requires
        run.runs(Op::Open { path, spec }, Some(id), fd, errno),
        run.on_a_file(),
        run.finds(there),
        run.progress.last() == (Progress::Settled { result: Ok(reply), register }),
    ensures
        register == Some(id),
        spec.read || spec.write || spec.append,
        there is Some ==> !spec.create_new,
        there is None ==> spec.create || spec.create_new,
        run.files.last() == (if there is None || spec.truncate {
            Seq::empty()
        } else {
            there->0
        }),
        reply matches Reply::Handle { id: i, size, fd: f } && {
            &&& i == id
            &&& size == run.files.last().len()
            &&& run.outcomes[0] == Outcome::Opened(Ok(f))
        },
{
    assert(run.outcomes.len() >= 1);
    assert(run.steps(0, errno) && run.moves(0));
    assert(run.outcomes.len() >= 2);
    assert(run.steps(1, errno) && run.moves(1));
    if run.outcomes.len() > 2 {
        assert(run.steps(2, errno));
    }
}

/// An open that the file's own state does not forbid fails for no reason of the
/// library's: until its call comes back it has not failed, and it fails only
/// with the error of one of its two calls.
pub proof fn an_open_task_fails_by_its_calls_only<'a>(
    run: TaskRun<'a>,
    path: PathBuf,
    spec: OpenSpec,
    id: u64,
    fd: i32,
    errno: Errno,
    e: Error,
)
    requires
        run.runs(Op::Open { path, spec }, Some(id), fd, errno),
        run.settled(Err(e)),
    ensures
        run.outcomes.last() == Outcome::Opened(Err(e)) || run.outcomes.last() == Outcome::Size(
            Err(e),
        ),
{
    assert(run.outcomes.len() >= 1);
    assert(run.steps(0, errno));
    if run.outcomes.len() >= 2 {
        assert(run.steps(1, errno));
    }
    if run.outcomes.len() >= 3 {
        assert(run.steps(2, errno));
    }
}

/// A sync that is answered well has flushed: the data alone where that was
/// asked for, the data and all about the file where it was not. A close that is
/// answered well has closed, and a change of length has been made, to the
/// length that was asked for. None of them is answered well without its call.
pub proof fn a_task_answers_well_only_what_was_done<'a>(
    run: TaskRun<'a>,
    op: Op<'a>,
    open_id: Option<u64>,
    fd: i32,
    errno: Errno,
    reply: ReplyView,
)
    requires
        op is Sync || op is Close || op is SetLen,
        run.runs(op, open_id, fd, errno),
        run.settled(Ok(reply)),
    ensures
        reply is Unit,
        match op {
            Op::Sync { data_only: true, .. } => run.did(0, Call::SyncData),
            Op::Sync { data_only: false, .. } => run.did(0, Call::SyncAll),
            Op::Close { .. } => run.did(0, Call::Close),
            Op::SetLen { size, .. } => run.did(0, Call::SetLen { size }),
            _ => false,
        },
        run.outcomes.len() == 1,
{
    assert(run.outcomes.len() >= 1);
    assert(run.steps(0, errno));
    if run.outcomes.len() > 1 {
        assert(run.steps(1, errno));
    }
}

/// Setting a length leaves the bytes of the file up to there, zeros behind its
/// old end, and the size that a question for it then replies.
pub proof fn a_set_length_is_the_size_that_is_told<'a>(
    run: TaskRun<'a>,
    handle: u64,
    size: u64,
    fd: i32,
    ask: TaskRun<'a>,
    asked: u64,
    errno: Errno,
    done: ReplyView,
    reply: ReplyView,
)
    requires
        run.runs(Op::SetLen { handle, size }, None, fd, errno),
        run.files.len() == run.progress.len(),
        forall|i: int| 0 <= i < run.outcomes.len() ==> #[trigger] run.resizes(i),
        run.settled(Ok(done)),
        ask.runs(Op::Size { handle: asked }, None, fd, errno),
        ask.on_a_file(),
        ask.files[0] == run.files.last(),
        ask.settled(Ok(reply)),
    ensures
        run.files.last().len() == size,
        forall|i: int|
            0 <= i < size ==> #[trigger] run.files.last()[i] == (if i < run.files[0].len() {
                run.files[0][i]
            } else {
                0
            }),
        reply == ReplyView::Size(size),
{
    a_task_answers_well_only_what_was_done(run, Op::SetLen { handle, size }, None, fd, errno, done);
    assert(run.resizes(0));
    a_size_task_tells_the_length_of_the_file(ask, asked, None, fd, errno, reply);
}

/// A question for the size replies the length of the file and leaves it as it
/// is.
pub proof fn a_size_task_tells_the_length_of_the_file<'a>(
    run: TaskRun<'a>,
    handle: u64,
    open_id: Option<u64>,
    fd: i32,
    errno: Errno,
    reply: ReplyView,
)
    requires
        run.runs(Op::Size { handle }, open_id, fd, errno),
        run.on_a_file(),
        run.settled(Ok(reply)),
    ensures
        reply matches ReplyView::Size(size) && size == run.files[0].len(),
        run.files.last() == run.files[0],
{
    assert(run.outcomes.len() >= 1);
    assert(run.steps(0, errno) && run.moves(0));
    if run.outcomes.len() > 1 {
        assert(run.steps(1, errno));
    }
}

/// An operation without work is answered at once, and well, be it cancelled or
/// not.
pub proof fn a_task_without_work_is_answered_at_once<'a>(
    run: TaskRun<'a>,
    open_id: Option<u64>,
    fd: i32,
    errno: Errno,
)
    requires
        run.runs(Op::Nop, open_id, fd, errno),
    ensures
        run.outcomes.len() == 0,
        run.settled(Ok(ReplyView::Unit)),
{
    if run.outcomes.len() > 0 {
        assert(run.steps(0, errno));
    }
}

/// A write or a whole-file write that is answered well has written its payload,
/// and a whole-file write has closed its file behind it.
pub proof fn a_write_task_answers_well_only_what_was_written<'a>(
    run: TaskRun<'a>,
    op: Op<'a>,
    open_id: Option<u64>,
    fd: i32,
    errno: Errno,
    reply: ReplyView,
)
    requires
        op is WriteAt || op is WriteFile,
        run.runs(op, open_id, fd, errno),
        run.settled(Ok(reply)),
    ensures
        match op {
            Op::WriteAt { pos, data, append: false, .. } => run.did(0, Call::WriteAll { pos, data }),
            Op::WriteAt { data, append: true, .. } => run.did(0, Call::Append { data }),
            Op::WriteFile { data, .. } => {
                &&& run.did(1, Call::WriteAll { pos: 0, data })
                &&& run.did(2, Call::Close)
            },
            _ => false,
        },
{
    assert(run.outcomes.len() >= 1);
    assert(run.steps(0, errno));
    if run.outcomes.len() >= 2 {
        assert(run.steps(1, errno));
    }
    if run.outcomes.len() >= 3 {
        assert(run.steps(2, errno));
    }
    if run.outcomes.len() >= 4 {
        assert(run.steps(3, errno));
    }
}

/// A whole-file read of a file of more than `inline_max` bytes is never
/// answered with bytes: it hands its file off, on the descriptor that the
/// system gave and with the length of the file, which stays as it was. One that
/// is answered with bytes has closed its file.
pub proof fn a_whole_file_read_task_hands_off_a_large_file<'a>(
    run: TaskRun<'a>,
    path: PathBuf,
    inline_max: u64,
    fd: i32,
    errno: Errno,
)
    requires
        run.runs(Op::ReadFile { path, inline_max }, None, fd, errno),
        run.on_a_file(),
    ensures
        run.progress.last() matches Progress::HandOff { size, fd: f } ==> {
            &&& size == run.files[0].len()
            &&& size > inline_max
            &&& run.outcomes[0] == Outcome::Opened(Ok(f))
            &&& run.files.last() == run.files[0]
        },
        run.progress.last() matches Progress::Settled { result: Ok(_), .. } ==> {
            &&& run.files[0].len() <= inline_max
            &&& run.did(3, Call::Close)
        },
{
    let m = run.outcomes.len();
    if m >= 1 {
        assert(run.steps(0, errno) && run.moves(0));
    }
    if m >= 2 {
        assert(run.steps(1, errno) && run.moves(1));
    }
    if m >= 3 {
        assert(run.steps(2, errno) && run.moves(2));
    }
    if m >= 4 {
        assert(run.steps(3, errno) && run.moves(3));
    }
    if m >= 5 {
        assert(run.steps(4, errno));
    }
}

/// The error of a call, if it failed.
pub open spec fn error_of(outcome: Outcome) -> Option<Error> {
    match outcome {
        Outcome::Opened(Err(e)) | Outcome::Size(Err(e)) | Outcome::Chunk(Err(e)) | Outcome::Bytes(
            Err(e),
        ) | Outcome::Done(Err(e)) => Some(e),
        _ => None,
    }
}

/// A call that fails is the last of its task, which settles with just its
/// error; and a task fails with no other error, but as cancelled where that was
/// asked for.
pub proof fn a_task_fails_with_the_error_of_its_call<'a>(
    run: TaskRun<'a>,
    op: Op<'a>,
    open_id: Option<u64>,
    fd: i32,
    errno: Errno,
)
    requires
        op.wf(),
        run.runs(op, open_id, fd, errno),
    ensures
        forall|i: int|
            0 <= i < run.outcomes.len() && error_of(#[trigger] run.outcomes[i]) is Some ==> {
                &&& i == run.outcomes.len() - 1
                &&& run.settled(Err(error_of(run.outcomes[i])->0))
            },
        forall|e: Error| #[trigger]
            run.settled(Err(e)) ==> {
                ||| run.outcomes.len() > 0 && error_of(run.outcomes.last()) == Some(e)
                ||| run.cancelled.last() && e == Error::Os(errno.cancelled)
            },
{
    let m = run.outcomes.len() as int;
    assert forall|i: int|
        0 <= i < run.outcomes.len() && error_of(#[trigger] run.outcomes[i]) is Some implies {
        &&& i == run.outcomes.len() - 1
        &&& run.settled(Err(error_of(run.outcomes[i])->0))
    } by {
        assert(run.steps(i, errno));
        if i + 1 < m {
            assert(run.steps(i + 1, errno));
        }
    }
    if m > 0 {
        assert(run.steps(m - 1, errno));
    }
}

/// Whether a cancel request lets a call be made: it moves no byte and flushes
/// nothing.
pub open spec fn harmless<'a>(call: Call<'a>) -> bool {
    match call {
        Call::Open { .. } | Call::Metadata | Call::SetLen { .. } | Call::Close => true,
        Call::Read { .. } | Call::ReadToEnd { .. } | Call::WriteAll { .. } | Call::Append { .. }
        | Call::SyncAll | Call::SyncData => false,
    }
}

/// A task that a cancel request has reached reads, writes and flushes no more;
/// one that begins with that settles as cancelled without a call.
pub proof fn a_cancel_request_stops_every_transfer<'a>(
    run: TaskRun<'a>,
    op: Op<'a>,
    open_id: Option<u64>,
    fd: i32,
    errno: Errno,
    k: int,
)
    requires
        op.wf(),
        run.runs(op, open_id, fd, errno),
        0 <= k <= run.outcomes.len(),
        run.cancelled[k],
    ensures
        run.progress[k] matches Progress::Await { call, .. } ==> harmless(call),
        k == 0 && (op is WriteAt || op is Sync || (op matches Op::ReadAt { dest, .. } && dest.len()
            > 0)) ==> run.outcomes.len() == 0 && run.settled(Err(Error::Os(errno.cancelled))),
{
    if k > 0 {
        assert(run.steps(k - 1, errno));
    } else if run.outcomes.len() > 0 {
        assert(run.steps(0, errno));
    }
}

/// A cancel request stops transfers and nothing else: a task that would settle
/// settles just so, and one that would open, ask for a size, set a length or
/// close goes on to do it. So what was written is still told of, and what was
/// opened is still closed.
pub proof fn a_cancel_request_stops_nothing_but_transfers<'a>(
    stage: Stage<'a>,
    outcome: Outcome,
    errno: Errno,
    going: Progress<'a>,
    stopped: Progress<'a>,
)
    requires
        stage.wf(),
        stage.expects(outcome),
        failure(outcome) is None,
        continues(stage, outcome, false, errno, going),
        continues(stage, outcome, true, errno, stopped),
    ensures
        going matches Progress::Await { call, .. } && harmless(call) ==> stopped == going,
        going matches Progress::Settled { result, register } ==> (stopped
            matches Progress::Settled { result: r, register: g } && op_outcome(r) == op_outcome(
            result,
        ) && g == register),
        going is HandOff ==> stopped == going,
{
}

/// The same of the beginning of a task.
pub proof fn a_cancel_request_lets_a_task_begin_without_a_transfer<'a>(
    op: Op<'a>,
    open_id: Option<u64>,
    fd: i32,
    errno: Errno,
    going: Progress<'a>,
    stopped: Progress<'a>,
)
    requires
        begins(op, open_id, fd, false, errno, going),
        begins(op, open_id, fd, true, errno, stopped),
    ensures
        going matches Progress::Await { call, .. } && harmless(call) ==> stopped == going,
        going matches Progress::Settled { result, register } ==> (stopped
            matches Progress::Settled { result: r, register: g } && op_outcome(r) == op_outcome(
            result,
        ) && g == register),
{
}

/// Whether a call can come back so: with an answer of its own kind, a read with
/// no more bytes than it asked for, and a write at offsets that there are.
pub open spec fn answers<'a>(call: Call<'a>, outcome: Outcome) -> bool {
    match call {
        Call::Open { .. } => outcome is Opened,
        Call::Metadata => outcome is Size,
        Call::Read { offset, target, len } => outcome matches Outcome::Chunk(chunk) && (
        chunk matches Ok((n, bytes)) ==> {
            &&& n <= len
            &&& offset + n <= u64::MAX
            &&& target is Fresh ==> bytes@.len() == n
        }),
        Call::ReadToEnd { .. } => outcome is Bytes,
        Call::WriteAll { pos, data } => outcome matches Outcome::Done(done) && (done is Ok ==> pos
            + data@.len() <= u64::MAX),
        _ => outcome is Done,
    }
}

/// A task takes whatever its call can come back with.
pub proof fn a_task_takes_every_answer_to_its_call<'a>(
    run: TaskRun<'a>,
    op: Op<'a>,
    open_id: Option<u64>,
    fd: i32,
    errno: Errno,
    outcome: Outcome,
)
    requires
        op.wf(),
        run.runs(op, open_id, fd, errno),
    ensures
        run.progress.last() matches Progress::Await { stage, call } ==> (answers(call, outcome)
            ==> stage.expects(outcome)),
{
    let m = run.outcomes.len() as int;
    if op is WriteAt {
        payloads_fit(op->WriteAt_data);
    }
    if m > 0 {
        assert(run.steps(m - 1, errno));
    }
}

} // verus!
