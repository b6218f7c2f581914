//! A whole task of the runtime backend, from its first call to the one that
//! settles it: how many calls it takes, why it fails, and what a read gives
//! back of a write.
//!
//! The file that a task works on is a sequence of bytes here, as in
//! [`round_trip`](crate::round_trip).

use std::path::PathBuf;

use vstd::prelude::*;

use crate::error::{cancelled_spec, Error};
use crate::event::handle_in;
use crate::host::Errno;
use crate::job::{JobKindView, ReadJobView};
use crate::op::{payloads_fit, Dest, Op, Payload, ReplyView};
use crate::round_trip::{
    a_sized_read_fills_the_memory_from_its_start, a_sized_read_gives_the_part_of_the_file,
    a_sized_read_into_memory_gives_the_part_of_the_file, all_true_to, memory_after, part, stored,
    true_to,
};
use crate::run::{after, ends, goes_through, Moved};
use crate::task::{
    begins, continues, failure, next_read, read_asked, unknown_stat, Call, Outcome, Progress, Stage,
};

verus! {

/// A task as it ran: where it stood at first and after each call, how the calls
/// went, whether a cancel request was there at each decision, and what the file
/// it worked on held at each.
pub struct TaskRun<'a> {
    pub progress: Seq<Progress<'a>>,
    pub outcomes: Seq<Outcome>,
    pub cancelled: Seq<bool>,
    pub files: Seq<Seq<u8>>,
}

/// Whether a call on a file that holds `file` can have gone that way and left
/// it with `left`. An open that truncates leaves nothing, a write puts its
/// bytes at their place, a read brings the bytes that are there and nothing
/// only where the file has ended. Of a call that failed nothing is said.
pub open spec fn performs<'a>(file: Seq<u8>, call: Call<'a>, outcome: Outcome, left: Seq<u8>) -> bool {
    match (call, outcome) {
        (Call::Open { spec, .. }, Outcome::Opened(Ok(_))) => left == (if spec.truncate {
            Seq::empty()
        } else {
            file
        }),
        (Call::Metadata, Outcome::Size(Ok(size))) => left == file && size == file.len(),
        (Call::Read { offset, target, len }, Outcome::Chunk(Ok((n, bytes)))) => {
            &&& left == file
            &&& n > 0 ==> {
                &&& offset + n <= file.len()
                &&& target is Fresh ==> bytes@ == file.subrange(offset as int, offset + n)
            }
            &&& n == 0 ==> offset >= file.len() || len == 0
        },
        (Call::ReadToEnd { pos, .. }, Outcome::Bytes(Ok(data))) => {
            &&& left == file
            &&& data@ == part(file, pos as int, file.len() as int)
        },
        (Call::WriteAll { pos, data }, Outcome::Done(Ok(()))) => left == stored(
            file,
            pos as int,
            data@,
        ),
        (Call::Append { data }, Outcome::Done(Ok(()))) => left == file + data@,
        (Call::Close, Outcome::Done(Ok(()))) => left == file,
        _ => true,
    }
}

/// What a chunk that was read at `call` brought of `file`, be it to a fresh
/// allocation or to the caller's memory.
pub open spec fn brought<'a>(file: Seq<u8>, call: Call<'a>, outcome: Outcome) -> Moved {
    match (call, outcome) {
        (Call::Read { offset, .. }, Outcome::Chunk(Ok((n, _)))) if n > 0 => Moved {
            n,
            bytes: file.subrange(offset as int, offset + n),
            stat: Ok(unknown_stat()),
        },
        _ => Moved { n: 0, bytes: Seq::empty(), stat: Ok(unknown_stat()) },
    }
}

impl<'a> TaskRun<'a> {
    /// The call number `i` came back, and the task went on as it should.
    pub open spec fn steps(self, i: int, errno: Errno) -> bool {
        &&& self.progress[i] matches Progress::Await { stage, .. } && {
            &&& stage.expects(self.outcomes[i])
            &&& match failure(self.outcomes[i]) {
                Some(e) => self.progress[i + 1].settles(Err(e)),
                None => continues(
                    stage,
                    self.outcomes[i],
                    self.cancelled[i + 1],
                    errno,
                    self.progress[i + 1],
                ),
            }
        }
        &&& self.progress[i + 1].wf()
    }

    /// This is how the task of an operation runs: it begins as
    /// [`begin`](crate::task::begin) says, and every call that comes back leads
    /// on as [`resume`](crate::task::resume) says.
    pub open spec fn runs(self, op: Op<'a>, open_id: Option<u64>, fd: i32, errno: Errno) -> bool {
        &&& self.progress.len() == self.outcomes.len() + 1
        &&& self.cancelled.len() == self.progress.len()
        &&& begins(op, open_id, fd, self.cancelled[0], errno, self.progress[0])
        &&& self.progress[0].wf()
        &&& forall|i: int| 0 <= i < self.outcomes.len() ==> #[trigger] self.steps(i, errno)
    }

    /// The call number `i` did to the file what it says.
    pub open spec fn moves(self, i: int) -> bool {
        self.progress[i] matches Progress::Await { call, .. } ==> performs(
            self.files[i],
            call,
            self.outcomes[i],
            self.files[i + 1],
        )
    }

    /// Every call did to the file what it says, and nothing else changed it.
    pub open spec fn on_a_file(self) -> bool {
        &&& self.files.len() == self.progress.len()
        &&& forall|i: int| 0 <= i < self.outcomes.len() ==> #[trigger] self.moves(i)
    }

    /// The task has settled with `result`, and its file goes no further.
    pub open spec fn settled(self, result: Result<ReplyView, Error>) -> bool {
        self.progress.last().settles(result)
    }

    /// What the call number `i` brought of the file.
    pub open spec fn chunk(self, i: int) -> Moved {
        brought(self.files[i], self.progress[i]->call, self.outcomes[i])
    }

    /// What the first `k` calls brought of the file.
    pub open spec fn chunks(self, k: int) -> Seq<Moved> {
        Seq::new(k as nat, |i: int| self.chunk(i))
    }
}

/// The most calls that a task in this stage has before it.
pub open spec fn calls_left<'a>(stage: Stage<'a>) -> int {
    match stage {
        Stage::OpeningFile { .. } => 4,
        Stage::SizingFile { .. } | Stage::OpeningWrite { .. } => 3,
        Stage::Opening { .. } | Stage::FindingEnd { .. } | Stage::Appending { .. }
        | Stage::ReadingFile | Stage::WritingFile { .. } => 2,
        Stage::Reading(job) => job@.buf.room() - job@.filled,
        _ => 1,
    }
}

/// The most calls that an operation takes: as many as a sized read has bytes,
/// four for any other.
pub open spec fn calls_of<'a>(op: Op<'a>) -> int {
    match op {
        Op::ReadAt { dest, .. } => dest.len() as int,
        _ => 4,
    }
}

/// Every call leaves fewer of them to come.
proof fn lemma_calls_run_out<'a>(
    run: TaskRun<'a>,
    op: Op<'a>,
    open_id: Option<u64>,
    fd: i32,
    errno: Errno,
    k: int,
)
    requires
        op.wf(),
        run.runs(op, open_id, fd, errno),
        0 <= k <= run.outcomes.len(),
    ensures
        run.progress[k].wf(),
        match run.progress[k] {
            Progress::Await { stage, .. } => calls_left(stage) >= 1 && k + calls_left(stage)
                <= calls_of(op),
            _ => k <= calls_of(op),
        },
    decreases k,
{
    if k > 0 {
        lemma_calls_run_out(run, op, open_id, fd, errno, k - 1);
        assert(run.steps(k - 1, errno));
    }
}

/// A task settles after finitely many calls: a sized read after as many as it
/// asks for bytes at most, any other operation after four. So an operation
/// whose calls come back is always answered.
pub proof fn a_task_settles_after_finitely_many_calls<'a>(
    run: TaskRun<'a>,
    op: Op<'a>,
    open_id: Option<u64>,
    fd: i32,
    errno: Errno,
)
    requires
        op.wf(),
        run.runs(op, open_id, fd, errno),
    ensures
        run.outcomes.len() <= calls_of(op),
        run.outcomes.len() == calls_of(op) ==> !(run.progress.last() is Await),
{
    lemma_calls_run_out(run, op, open_id, fd, errno, run.outcomes.len() as int);
}

/// A task fails only with the error of its last call, or as cancelled where
/// that was asked for.
pub proof fn an_error_of_a_task_has_its_reason<'a>(
    run: TaskRun<'a>,
    op: Op<'a>,
    open_id: Option<u64>,
    fd: i32,
    errno: Errno,
    e: Error,
)
    requires
        op.wf(),
        run.runs(op, open_id, fd, errno),
        run.settled(Err(e)),
    ensures
        (run.outcomes.len() > 0 && failure(run.outcomes.last()) == Some(e)) || (
        run.cancelled.last() && e == cancelled_spec(errno)),
{
    let m = run.outcomes.len() as int;
    if m > 0 {
        assert(run.steps(m - 1, errno));
    }
}

/// A write at a position leaves its payload there and the rest of the file as
/// it was, and reports its length and where it ends.
pub proof fn a_write_task_stores_its_payload<'a>(
    run: TaskRun<'a>,
    handle: u64,
    pos: u64,
    data: Payload<'a>,
    open_id: Option<u64>,
    fd: i32,
    errno: Errno,
    reply: ReplyView,
)
    requires
        run.runs(Op::WriteAt { handle, pos, data, append: false }, open_id, fd, errno),
        run.on_a_file(),
        run.settled(Ok(reply)),
    ensures
        run.files.last() == stored(run.files[0], pos as int, data@),
        reply matches ReplyView::Written { n, end } && n == data@.len() && end == pos
            + data@.len(),
{
    payloads_fit(data);
    assert(run.outcomes.len() >= 1);
    assert(run.steps(0, errno) && run.moves(0));
    if run.outcomes.len() > 1 {
        assert(run.steps(1, errno));
    }
}

/// An append leaves its payload behind what the file held, and reports its
/// length and the end of the file.
pub proof fn an_append_task_puts_its_payload_at_the_end<'a>(
    run: TaskRun<'a>,
    handle: u64,
    pos: u64,
    data: Payload<'a>,
    open_id: Option<u64>,
    fd: i32,
    errno: Errno,
    reply: ReplyView,
)
    requires
        run.runs(Op::WriteAt { handle, pos, data, append: true }, open_id, fd, errno),
        run.on_a_file(),
        run.settled(Ok(reply)),
    ensures
        run.files.last() == run.files[0] + data@,
        reply matches ReplyView::Written { n, end } && n == data@.len() && end
            == run.files.last().len(),
{
    payloads_fit(data);
    assert(run.outcomes.len() >= 1);
    assert(run.steps(0, errno) && run.moves(0));
    assert(run.outcomes.len() >= 2);
    assert(run.steps(1, errno) && run.moves(1));
    if run.outcomes.len() > 2 {
        assert(run.steps(2, errno));
    }
}

/// A read to end gives all that the file holds from its position on.
pub proof fn a_read_to_end_task_gives_the_rest_of_the_file<'a>(
    run: TaskRun<'a>,
    handle: u64,
    pos: u64,
    open_id: Option<u64>,
    fd: i32,
    errno: Errno,
    reply: ReplyView,
)
    requires
        run.runs(Op::ReadToEnd { handle, pos }, open_id, fd, errno),
        run.on_a_file(),
        run.settled(Ok(reply)),
    ensures
        run.files.last() == run.files[0],
        reply == ReplyView::Bytes(part(run.files[0], pos as int, run.files[0].len() as int)),
{
    assert(run.outcomes.len() >= 1);
    assert(run.steps(0, errno) && run.moves(0));
    assert(run.outcomes.len() >= 2);
    assert(run.steps(1, errno) && run.moves(1));
    if run.outcomes.len() > 2 {
        assert(run.steps(2, errno));
    }
}

/// A sized read that goes on goes through the chunks that its calls brought.
proof fn lemma_read_task_goes_through<'a>(
    run: TaskRun<'a>,
    read: ReadJobView,
    op: Op<'a>,
    open_id: Option<u64>,
    fd: i32,
    errno: Errno,
    k: int,
)
    requires
        run.runs(op, open_id, fd, errno),
        run.on_a_file(),
        run.progress[0].reads_on(read, run.cancelled[0], errno),
        read.wf(),
        read.want is Exact,
        0 <= k <= run.outcomes.len(),
        run.progress[k] is Await,
    ensures
        run.files[k] == run.files[0],
        run.progress[k] matches Progress::Await { stage: Stage::Reading(now), call } && {
            &&& now@.wf()
            &&& JobKindView::Read(now@) == after(JobKindView::Read(read), run.chunks(k))
            &&& call == next_read::<'a>(now@)
        },
        goes_through(JobKindView::Read(read), run.chunks(k)),
        all_true_to(run.files[0], JobKindView::Read(read), run.chunks(k)),
    decreases k,
{
    let kind = JobKindView::Read(read);
    if k > 0 {
        assert(run.steps(k - 1, errno) && run.moves(k - 1));
        lemma_read_task_goes_through(run, read, op, open_id, fd, errno, k - 1);
        lemma_chunk_is_true(run, read, errno, k - 1);
        assert(run.chunks(k).drop_last() =~= run.chunks(k - 1));
        assert(run.chunks(k).last() == run.chunk(k - 1));
    }
}

/// A chunk that came back brought what the file holds there, and leads the
/// read on as its bytes do.
proof fn lemma_chunk_is_true<'a>(run: TaskRun<'a>, read: ReadJobView, errno: Errno, i: int)
    requires
        0 <= i < run.outcomes.len(),
        run.on_a_file(),
        run.files[i] == run.files[0],
        run.steps(i, errno),
        failure(run.outcomes[i]) is None,
        run.progress[i] matches Progress::Await { stage: Stage::Reading(now), call } && {
            &&& now@.wf()
            &&& JobKindView::Read(now@) == after(JobKindView::Read(read), run.chunks(i))
            &&& call == next_read::<'a>(now@)
        },
    ensures
        run.files[i + 1] == run.files[0],
        ({
            let now = run.progress[i]->stage->Reading_0@;
            let chunk = run.chunk(i);
            &&& run.outcomes[i] matches Outcome::Chunk(Ok((n, bytes))) && {
                &&& n == chunk.n
                &&& now.took(n, bytes@) == now.took(chunk.n, chunk.bytes)
                &&& JobKindView::Read(now).settles(n, bytes@, Ok(unknown_stat()))
                    == JobKindView::Read(now).settles(chunk.n, chunk.bytes, chunk.stat)
            }
            &&& JobKindView::Read(now).accepts(chunk.n, chunk.bytes)
            &&& true_to(run.files[0], now, chunk)
        }),
{
    assert(run.moves(i));
    let now = run.progress[i]->stage->Reading_0@;
    if let Outcome::Chunk(Ok((n, bytes))) = run.outcomes[i] {
        if n == 0 && now.buf is Owned {
            assert(bytes@ =~= run.chunk(i).bytes);
        }
    }
}

/// A sized read gives the bytes of the file that are there, all that were
/// asked for unless the file ends before: in an allocation of its own, or in
/// the caller's memory, from its start on, with their count.
pub proof fn a_sized_read_task_gives_the_part_of_the_file<'a>(
    run: TaskRun<'a>,
    handle: u64,
    pos: u64,
    dest: Dest,
    open_id: Option<u64>,
    fd: i32,
    errno: Errno,
    memory: Seq<u8>,
    reply: ReplyView,
)
    requires
        dest.wf(),
        run.runs(Op::ReadAt { handle, pos, dest }, open_id, fd, errno),
        run.on_a_file(),
        run.settled(Ok(reply)),
    ensures
        run.files.last() == run.files[0],
        ({
            let there = part(run.files[0], pos as int, dest.len() as int);
            let read = read_asked(handle, fd, pos, dest);
            match dest {
                Dest::Alloc { .. } => reply == ReplyView::Bytes(there),
                Dest::Into { .. } => {
                    &&& reply == (ReplyView::Read { n: there.len() as usize })
                    &&& memory_after(memory, read, run.chunks(run.outcomes.len() as int)) == stored(
                        memory,
                        0,
                        there,
                    )
                },
            }
        }),
{
    let op = Op::ReadAt { handle, pos, dest };
    let read = read_asked(handle, fd, pos, dest);
    let kind = JobKindView::Read(read);
    let file = run.files[0];
    let m = run.outcomes.len() as int;
    if dest.len() == 0 {
        if m > 0 {
            assert(run.steps(0, errno));
        }
        let there = part(file, pos as int, 0);
        assert(there =~= Seq::<u8>::empty());
        assert(memory_after(memory, read, run.chunks(0)) =~= stored(memory, 0, there));
    } else {
        assert(m >= 1);
        assert(run.steps(m - 1, errno));
        lemma_read_task_goes_through(run, read, op, open_id, fd, errno, m - 1);
        lemma_chunk_is_true(run, read, errno, m - 1);
        let chunks = run.chunks(m - 1);
        let last = run.chunk(m - 1);
        assert(run.chunks(m) =~= chunks.push(last));
        assert(chunks.push(last).drop_last() =~= chunks);
        let result = Ok::<ReplyView, Error>(reply);
        assert(ends(kind, chunks, last, result));
        assert(all_true_to(file, kind, chunks.push(last)));
        if dest is Alloc {
            a_sized_read_gives_the_part_of_the_file(file, read, chunks, last, result, dest.len());
        } else {
            a_sized_read_into_memory_gives_the_part_of_the_file(
                file,
                read,
                chunks,
                last,
                result,
                dest.len(),
            );
            a_sized_read_fills_the_memory_from_its_start(
                file,
                memory,
                read,
                chunks,
                last,
                result,
                dest.len(),
            );
        }
    }
}

/// A read gives back what a write wrote: after a write has settled well, a read
/// of as many bytes at the same position gives its payload.
pub proof fn a_read_task_gives_back_what_a_write_task_wrote<'a>(
    write: TaskRun<'a>,
    handle: u64,
    pos: u64,
    data: Payload<'a>,
    receipt: ReplyView,
    read: TaskRun<'a>,
    read_handle: u64,
    dest: Dest,
    write_fd: i32,
    read_fd: i32,
    errno: Errno,
    memory: Seq<u8>,
    reply: ReplyView,
)
    requires
        write.runs(Op::WriteAt { handle, pos, data, append: false }, None, write_fd, errno),
        write.on_a_file(),
        write.settled(Ok(receipt)),
        dest.wf(),
        dest.len() == data@.len(),
        memory.len() == data@.len(),
        read.runs(Op::ReadAt { handle: read_handle, pos, dest }, None, read_fd, errno),
        read.on_a_file(),
        read.files[0] == write.files.last(),
        read.settled(Ok(reply)),
    ensures
        match dest {
            Dest::Alloc { .. } => reply == ReplyView::Bytes(data@),
            Dest::Into { .. } => {
                &&& reply == (ReplyView::Read { n: data@.len() as usize })
                &&& memory_after(
                    memory,
                    read_asked(read_handle, read_fd, pos, dest),
                    read.chunks(read.outcomes.len() as int),
                ) == data@
            },
        },
{
    a_write_task_stores_its_payload(write, handle, pos, data, None, write_fd, errno, receipt);
    a_sized_read_task_gives_the_part_of_the_file(
        read,
        read_handle,
        pos,
        dest,
        None,
        read_fd,
        errno,
        memory,
        reply,
    );
    assert(part(read.files[0], pos as int, data@.len() as int) =~= data@);
    assert(stored(memory, 0, data@) =~= data@);
}

/// A whole-file write leaves exactly its payload in the file, whatever the file
/// held before, and reports its length. It keeps no handle.
pub proof fn a_whole_file_write_task_leaves_its_payload_alone<'a>(
    run: TaskRun<'a>,
    path: PathBuf,
    data: Payload<'a>,
    fd: i32,
    errno: Errno,
    reply: ReplyView,
)
    requires
        run.runs(Op::WriteFile { path, data }, None, fd, errno),
        run.on_a_file(),
        run.settled(Ok(reply)),
    ensures
        run.files.last() == data@,
        reply matches ReplyView::Written { n, end } && n == data@.len() && end == data@.len(),
        run.progress.last() matches Progress::Settled { register, .. } && register is None,
{
    payloads_fit(data);
    assert(run.outcomes.len() >= 1);
    assert(run.steps(0, errno) && run.moves(0));
    assert(run.outcomes.len() >= 2);
    assert(run.steps(1, errno) && run.moves(1));
    assert(run.outcomes.len() >= 3);
    assert(run.steps(2, errno) && run.moves(2));
    if run.outcomes.len() > 3 {
        assert(run.steps(3, errno));
    }
    assert(stored(Seq::empty(), 0, data@) =~= data@);
}

/// A whole-file read of a file of at most `inline_max` bytes gives all that the
/// file holds and leaves it as it was. It keeps no handle.
pub proof fn a_whole_file_read_task_gives_the_file<'a>(
    run: TaskRun<'a>,
    path: PathBuf,
    inline_max: u64,
    fd: i32,
    errno: Errno,
)
    requires
        run.runs(Op::ReadFile { path, inline_max }, None, fd, errno),
        run.on_a_file(),
        run.files[0].len() <= inline_max,
    ensures
        !(run.progress.last() is HandOff),
        forall|reply: ReplyView| #[trigger]
            run.settled(Ok(reply)) ==> {
                &&& reply == ReplyView::Bytes(run.files[0])
                &&& run.files.last() == run.files[0]
                &&& run.progress.last() matches Progress::Settled { register, .. }
                    && register is None
            },
{
    let m = run.outcomes.len();
    if m >= 1 {
        assert(run.steps(0, errno) && run.moves(0));
    }
    if m >= 2 {
        assert(run.steps(1, errno) && run.moves(1));
    }
    if m >= 3 {
        assert(run.steps(2, errno) && run.moves(2));
    }
    if m >= 4 {
        assert(run.steps(3, errno) && run.moves(3));
    }
    if m >= 5 {
        assert(run.steps(4, errno));
    }
    let file = run.files[0];
    assert(part(file, 0, file.len() as int) =~= file);
}

/// A whole-file read gives back what a whole-file write wrote, whatever the
/// file held before: the write settles with the length of its payload, the read
/// with the payload, and neither keeps a handle.
pub proof fn a_whole_file_read_task_gives_back_a_whole_file_write_task<'a>(
    write: TaskRun<'a>,
    path: PathBuf,
    data: Payload<'a>,
    receipt: ReplyView,
    read: TaskRun<'a>,
    inline_max: u64,
    fd: i32,
    errno: Errno,
    reply: ReplyView,
)
    requires
        write.runs(Op::WriteFile { path, data }, None, fd, errno),
        write.on_a_file(),
        write.settled(Ok(receipt)),
        data@.len() <= inline_max,
        read.runs(Op::ReadFile { path, inline_max }, None, fd, errno),
        read.on_a_file(),
        read.files[0] == write.files.last(),
        read.settled(Ok(reply)),
    ensures
        receipt matches ReplyView::Written { n, end } && n == data@.len() && end == data@.len(),
        reply == ReplyView::Bytes(data@),
        read.files.last() == data@,
        write.progress.last() matches Progress::Settled { register, .. } && register is None,
        read.progress.last() matches Progress::Settled { register, .. } && register is None,
{
    a_whole_file_write_task_leaves_its_payload_alone(write, path, data, fd, errno, receipt);
    a_whole_file_read_task_gives_the_file(read, path, inline_max, fd, errno);
}

/// No operation but an open keeps its file under an id of its own, and that is
/// the id that was set aside for it; a whole-file read of a file that is too
/// large is handed off to get a new one. No other operation replies a handle.
pub proof fn a_task_replies_no_handle_but_its_own<'a>(
    run: TaskRun<'a>,
    op: Op<'a>,
    open_id: Option<u64>,
    fd: i32,
    errno: Errno,
)
    requires
        op.wf(),
        run.runs(op, open_id, fd, errno),
    ensures
        run.progress.last() is HandOff ==> op is ReadFile,
        run.progress.last() matches Progress::Settled { result, register } ==> {
            &&& register == handle_in(result)
            &&& register is Some ==> op is Open && register->0 == open_id->0
        },
{
    let m = run.outcomes.len() as int;
    lemma_stage_is_of_the_operation(run, op, open_id, fd, errno, m);
    if m > 0 {
        lemma_stage_is_of_the_operation(run, op, open_id, fd, errno, m - 1);
        assert(run.steps(m - 1, errno));
    }
}

/// Only an open stands in the stages of an open, with its own id, and only a
/// whole-file read in those of one.
proof fn lemma_stage_is_of_the_operation<'a>(
    run: TaskRun<'a>,
    op: Op<'a>,
    open_id: Option<u64>,
    fd: i32,
    errno: Errno,
    k: int,
)
    requires
        run.runs(op, open_id, fd, errno),
        0 <= k <= run.outcomes.len(),
    ensures
        run.progress[k] matches Progress::Await { stage, .. } ==> match stage {
            Stage::Opening { id } => op is Open && id == open_id->0,
            Stage::Sizing { id, .. } => op is Open && id == open_id->0,
            Stage::OpeningFile { .. } => op is ReadFile,
            Stage::SizingFile { .. } => op is ReadFile,
            _ => true,
        },
    decreases k,
{
    if k > 0 {
        lemma_stage_is_of_the_operation(run, op, open_id, fd, errno, k - 1);
        assert(run.steps(k - 1, errno));
    }
}

} // verus!
