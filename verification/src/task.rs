//! The backend on an asynchronous runtime: one task per operation, a table of
//! open files, and cancel requests that stop a task before its next transfer.
//!
//! A task alternates between a [`Call`] that the runtime awaits and a decision
//! made here. `F` is the runtime's file, opaque to this module.

use std::collections::{HashMap, HashSet};
use std::path::PathBuf;

use vstd::pervasive::cloned;
use vstd::prelude::*;

use crate::error::{bad_handle, bad_handle_spec, cancelled_error, cancelled_spec, Error};
use crate::host::Errno;
use crate::job::{JobKindView, ReadBuf, ReadBufView, ReadJob, ReadJobView, Stat, Target, Want};
use crate::op::{outcome, Dest, Op, OpenSpec, Payload, Reply, ReplyView};
use crate::runtime::TableEvent;

verus! {

broadcast use vstd::std_specs::hash::group_hash_axioms;

/// What a task awaits, on the file it works on.
pub enum Call<'a> {
    Open { path: PathBuf, spec: OpenSpec },
    /// Ask for the size.
    Metadata,
    Read { offset: u64, target: Target, len: usize },
    /// Read everything from `pos` on into an allocation of `capacity` bytes.
    ReadToEnd { pos: u64, capacity: usize },
    WriteAll { pos: u64, data: Payload<'a> },
    /// Write at the end, wherever that is.
    Append { data: Payload<'a> },
    SyncAll,
    SyncData,
    SetLen { size: u64 },
    Close,
}

impl<'a> Call<'a> {
    /// Whether the call moves bytes or flushes them: a cancel request stops a
    /// task before such a call.
    pub open spec fn transfers(self) -> bool {
        match self {
            Call::Read { .. } => true,
            Call::ReadToEnd { .. } => true,
            Call::WriteAll { .. } => true,
            Call::Append { .. } => true,
            Call::SyncAll => true,
            Call::SyncData => true,
            _ => false,
        }
    }
}

/// How a call went.
pub enum Outcome {
    /// An open, with the raw descriptor.
    Opened(Result<i64, Error>),
    /// A size.
    Size(Result<u64, Error>),
    /// A read: the count, and the bytes when it filled an allocation.
    Chunk(Result<(usize, Vec<u8>), Error>),
    /// A read to end.
    Bytes(Result<Vec<u8>, Error>),
    /// Any other call.
    Done(Result<(), Error>),
}

/// Where a task stands: what the awaited call is for.
pub enum Stage<'a> {
    Opening { id: u64 },
    Sizing { id: u64, fd: i64 },
    Reading(ReadJob),
    FindingEnd { pos: u64 },
    ReadingEnd,
    Writing { n: usize, pos: u64 },
    Appending { n: usize },
    FindingAppended { n: usize },
    /// A close, a flush or a change of length.
    Finishing,
    FindingSize,
    OpeningFile { inline_max: u64 },
    SizingFile { fd: i64, inline_max: u64 },
    ReadingFile,
    ClosingRead { bytes: Vec<u8> },
    OpeningWrite { data: Payload<'a> },
    WritingFile { n: usize },
    ClosingWrite { n: usize },
}

impl<'a> Stage<'a> {
    pub open spec fn wf(self) -> bool {
        self matches Stage::Reading(job) ==> job@.wf() && (job@.want is Exact)
    }

    /// Whether the awaited call can have gone that way.
    pub open spec fn expects(self, outcome: Outcome) -> bool {
        match self {
            Stage::Opening { .. } | Stage::OpeningFile { .. } | Stage::OpeningWrite {
                ..
            } => outcome is Opened,
            Stage::Sizing { .. } | Stage::FindingEnd { .. } | Stage::FindingAppended {
                ..
            } | Stage::FindingSize | Stage::SizingFile { .. } => outcome is Size,
            Stage::Reading(job) => outcome matches Outcome::Chunk(chunk) && (chunk matches Ok(
                (n, bytes),
            ) ==> JobKindView::Read(job@).accepts(n, bytes@)),
            Stage::ReadingEnd | Stage::ReadingFile => outcome is Bytes,
            Stage::Writing { n, pos } => outcome matches Outcome::Done(done) && (done is Ok ==> pos
                + n <= u64::MAX),
            Stage::Appending { .. } | Stage::Finishing | Stage::ClosingRead {
                ..
            } | Stage::WritingFile { .. } | Stage::ClosingWrite { .. } => outcome is Done,
        }
    }
}

impl<'a> Stage<'a> {
    /// Whether the awaited call can have gone that way.
    pub fn accepts(&self, outcome: &Outcome) -> (yes: bool)
        requires
            self.wf(),
        ensures
            yes == self.expects(*outcome),
    {
        match self {
            Stage::Opening { .. } | Stage::OpeningFile { .. } | Stage::OpeningWrite {
                ..
            } => matches!(outcome, Outcome::Opened(_)),
            Stage::Sizing { .. } | Stage::FindingEnd { .. } | Stage::FindingAppended {
                ..
            } | Stage::FindingSize | Stage::SizingFile { .. } => matches!(outcome, Outcome::Size(_)),
            Stage::Reading(job) => match outcome {
                Outcome::Chunk(Ok((n, bytes))) => job.accepts(*n, bytes.len()),
                Outcome::Chunk(Err(_)) => true,
                _ => false,
            },
            Stage::ReadingEnd | Stage::ReadingFile => matches!(outcome, Outcome::Bytes(_)),
            Stage::Writing { n, pos } => match outcome {
                Outcome::Done(Ok(())) => *n as u64 <= u64::MAX - *pos,
                Outcome::Done(Err(_)) => true,
                _ => false,
            },
            Stage::Appending { .. } | Stage::Finishing | Stage::ClosingRead {
                ..
            } | Stage::WritingFile { .. } | Stage::ClosingWrite { .. } => matches!(outcome, Outcome::Done(_)),
        }
    }
}

/// What a task does next.
pub enum Progress<'a> {
    /// Await the call and report by [`resume`].
    Await { stage: Stage<'a>, call: Call<'a> },
    /// Settle the operation. With `register`, the task's file becomes the
    /// handle of that id; without, the file is dropped.
    Settled { result: Result<Reply, Error>, register: Option<u64> },
    /// Settle the operation with a new handle on the task's file, by
    /// [`Runtime::hand_off`].
    HandOff { size: u64, fd: i64 },
}

impl<'a> Progress<'a> {
    pub open spec fn wf(self) -> bool {
        self matches Progress::Await { stage, .. } ==> stage.wf()
    }

    /// The task settles with `result`, and its file goes no further.
    pub open spec fn settles(self, result: Result<ReplyView, Error>) -> bool {
        self matches Progress::Settled { result: r, register } && outcome(r) == result
            && register is None
    }

    /// The task settles with a handle of the given id on its file.
    pub open spec fn hands_out(self, id: u64, size: u64, fd: i64) -> bool {
        self matches Progress::Settled { result: r, register } && outcome(r) == Ok::<
            ReplyView,
            Error,
        >(ReplyView::Handle { id, size, fd }) && register == Some(id)
    }

    /// The task awaits `call` in `stage`; or settles as cancelled, where that
    /// was asked for and the call is a transfer.
    pub open spec fn goes_on(
        self,
        stage: Stage<'a>,
        call: Call<'a>,
        cancelled: bool,
        errno: Errno,
    ) -> bool {
        if cancelled && call.transfers() {
            self.settles(Err(cancelled_spec(errno)))
        } else {
            self == (Progress::Await { stage, call })
        }
    }

    /// The task awaits the next chunk of the read `job`, or settles as
    /// cancelled.
    pub open spec fn reads_on(self, job: ReadJobView, cancelled: bool, errno: Errno) -> bool {
        if cancelled {
            self.settles(Err(cancelled_spec(errno)))
        } else {
            self matches Progress::Await { stage: Stage::Reading(now), call } && now@ == job
                && call == next_read(job)
        }
    }
}

/// The call for the next chunk of a read: what is left, right behind what was
/// read.
pub open spec fn next_read<'a>(job: ReadJobView) -> Call<'a> {
    Call::Read {
        offset: (job.pos + job.filled) as u64,
        target: job.buf.chunk(job.filled).0,
        len: job.buf.chunk(job.filled).1,
    }
}

/// The read that an operation on a handle asks for.
pub open spec fn read_asked(handle: u64, fd: i32, pos: u64, dest: Dest) -> ReadJobView {
    ReadJobView {
        handle: Some(handle),
        fd,
        owned_fd: false,
        pos,
        want: Want::Exact(dest.len()),
        buf: match dest {
            Dest::Alloc { len } => ReadBufView::Owned { data: Seq::empty(), room: len },
            Dest::Into { addr, len } => ReadBufView::External { addr, len },
        },
        filled: 0,
    }
}

/// The allocation that a read to end begins with: what the file is said to
/// hold from `pos` on, and a byte more to see the end in.
pub open spec fn capacity_to_end(size: u64, pos: u64) -> usize {
    (size.saturating_sub(pos) as usize).saturating_add(1)
}

/// Await `call`, unless it is a transfer and the task was cancelled.
fn go_on<'a>(stage: Stage<'a>, call: Call<'a>, cancelled: bool, errno: &Errno) -> (progress:
    Progress<'a>)
    requires
        stage.wf(),
    ensures
        progress.wf(),
        progress.goes_on(stage, call, cancelled, *errno),
{
    let transfers: bool = match &call {
        Call::Read { .. } | Call::ReadToEnd { .. } | Call::WriteAll { .. } | Call::Append {
            ..
        } | Call::SyncAll | Call::SyncData => true,
        Call::Open { .. } | Call::Metadata | Call::SetLen { .. } | Call::Close => false,
    };
    if cancelled && transfers {
        return settle(Err(cancelled_error(errno)));
    }
    Progress::Await { stage, call }
}

/// Settle, and keep no file.
fn settle<'a>(result: Result<Reply, Error>) -> (progress: Progress<'a>)
    ensures
        progress.wf(),
        progress.settles(outcome(result)),
{
    Progress::Settled { result, register: None }
}

/// Await the next chunk of `job`.
fn read_on<'a>(job: ReadJob, cancelled: bool, errno: &Errno) -> (progress: Progress<'a>)
    requires
        job@.wf(),
        job@.want is Exact,
    ensures
        progress.wf(),
        progress.reads_on(job@, cancelled, *errno),
{
    let (target, len) = job.buf.chunk(job.filled);
    let call = Call::Read { offset: job.pos + job.filled as u64, target, len };
    go_on(Stage::Reading(job), call, cancelled, errno)
}

/// What a task does first. `open_id` is the handle id set aside for an open by
/// [`Runtime::enter`], `fd` the raw descriptor of the file the task works on if
/// it works on one.
pub open spec fn begins<'a>(
    op: Op<'a>,
    open_id: Option<u64>,
    fd: i32,
    cancelled: bool,
    errno: Errno,
    progress: Progress<'a>,
) -> bool {
    match op {
        Op::Nop => progress.settles(Ok(ReplyView::Unit)),
        Op::Open { path, spec } => progress.goes_on(
            Stage::Opening { id: open_id->0 },
            Call::Open { path, spec },
            cancelled,
            errno,
        ),
        Op::ReadFile { path, inline_max } => progress.goes_on(
            Stage::OpeningFile { inline_max },
            Call::Open { path, spec: OpenSpec { read: true, ..OpenSpec::none() } },
            cancelled,
            errno,
        ),
        Op::WriteFile { path, data } => progress.goes_on(
            Stage::OpeningWrite { data },
            Call::Open {
                path,
                spec: OpenSpec { write: true, create: true, truncate: true, ..OpenSpec::none() },
            },
            cancelled,
            errno,
        ),
        Op::ReadAt { handle, pos, dest } => if dest.len() == 0 {
            progress.settles(Ok(read_asked(handle, fd, pos, dest).reply()))
        } else {
            progress.reads_on(read_asked(handle, fd, pos, dest), cancelled, errno)
        },
        Op::ReadToEnd { pos, .. } => progress.goes_on(
            Stage::FindingEnd { pos },
            Call::Metadata,
            cancelled,
            errno,
        ),
        Op::WriteAt { pos, data, append, .. } => if append {
            progress.goes_on(
                Stage::Appending { n: data@.len() as usize },
                Call::Append { data },
                cancelled,
                errno,
            )
        } else {
            progress.goes_on(
                Stage::Writing { n: data@.len() as usize, pos },
                Call::WriteAll { pos, data },
                cancelled,
                errno,
            )
        },
        Op::Close { .. } => progress.goes_on(Stage::Finishing, Call::Close, cancelled, errno),
        Op::Sync { data_only, .. } => progress.goes_on(
            Stage::Finishing,
            if data_only {
                Call::SyncData
            } else {
                Call::SyncAll
            },
            cancelled,
            errno,
        ),
        Op::SetLen { size, .. } => progress.goes_on(
            Stage::Finishing,
            Call::SetLen { size },
            cancelled,
            errno,
        ),
        Op::Size { .. } => progress.goes_on(Stage::FindingSize, Call::Metadata, cancelled, errno),
    }
}

/// Begin the task of an operation.
pub fn begin<'a>(
    op: Op<'a>,
    open_id: Option<u64>,
    fd: i32,
    cancelled: bool,
    errno: &Errno,
) -> (progress: Progress<'a>)
    requires
        op.wf(),
        op is Open ==> open_id is Some,
    ensures
        progress.wf(),
        begins(op, open_id, fd, cancelled, *errno, progress),
{
    let id: u64 = match open_id {
        Some(id) => id,
        None => 0,
    };
    match op {
        Op::Nop => settle(Ok(Reply::Unit)),
        Op::Open { path, spec } => go_on(
            Stage::Opening { id },
            Call::Open { path, spec },
            cancelled,
            errno,
        ),
        Op::ReadFile { path, inline_max } => {
            let mut spec = OpenSpec::default();
            spec.read = true;
            go_on(Stage::OpeningFile { inline_max }, Call::Open { path, spec }, cancelled, errno)
        },
        Op::WriteFile { path, data } => {
            let mut spec = OpenSpec::default();
            spec.write = true;
            spec.create = true;
            spec.truncate = true;
            go_on(Stage::OpeningWrite { data }, Call::Open { path, spec }, cancelled, errno)
        },
        Op::ReadAt { handle, pos, dest } => {
            let (len, buf) = match dest {
                Dest::Alloc { len } => (len, ReadBuf::Owned { data: Vec::new(), room: len }),
                Dest::Into { addr, len } => (len, ReadBuf::External { addr, len }),
            };
            if len == 0 {
                return match buf {
                    ReadBuf::Owned { data, .. } => settle(Ok(Reply::Bytes(data))),
                    ReadBuf::External { .. } => settle(Ok(Reply::Read { n: 0 })),
                };
            }
            let job = ReadJob {
                handle: Some(handle),
                fd,
                owned_fd: false,
                pos,
                want: Want::Exact(len),
                buf,
                filled: 0,
            };
            read_on(job, cancelled, errno)
        },
        Op::ReadToEnd { pos, .. } => go_on(
            Stage::FindingEnd { pos },
            Call::Metadata,
            cancelled,
            errno,
        ),
        Op::WriteAt { pos, data, append, .. } => {
            let n: usize = data.len();
            if append {
                go_on(Stage::Appending { n }, Call::Append { data }, cancelled, errno)
            } else {
                go_on(Stage::Writing { n, pos }, Call::WriteAll { pos, data }, cancelled, errno)
            }
        },
        Op::Close { .. } => go_on(Stage::Finishing, Call::Close, cancelled, errno),
        Op::Sync { data_only, .. } => {
            if data_only {
                go_on(Stage::Finishing, Call::SyncData, cancelled, errno)
            } else {
                go_on(Stage::Finishing, Call::SyncAll, cancelled, errno)
            }
        },
        Op::SetLen { size, .. } => go_on(
            Stage::Finishing,
            Call::SetLen { size },
            cancelled,
            errno,
        ),
        Op::Size { .. } => go_on(Stage::FindingSize, Call::Metadata, cancelled, errno),
    }
}

/// The error that an outcome brings, if it brings one.
pub open spec fn failure(outcome: Outcome) -> Option<Error> {
    match outcome {
        Outcome::Opened(Err(e)) => Some(e),
        Outcome::Size(Err(e)) => Some(e),
        Outcome::Chunk(Err(e)) => Some(e),
        Outcome::Bytes(Err(e)) => Some(e),
        Outcome::Done(Err(e)) => Some(e),
        _ => None,
    }
}

/// What a task does after a call that went well.
pub open spec fn continues<'a>(
    stage: Stage<'a>,
    outcome: Outcome,
    cancelled: bool,
    errno: Errno,
    progress: Progress<'a>,
) -> bool {
    match (stage, outcome) {
        (Stage::Opening { id }, Outcome::Opened(Ok(fd))) => progress.goes_on(
            Stage::Sizing { id, fd },
            Call::Metadata,
            cancelled,
            errno,
        ),
        (Stage::Sizing { id, fd }, Outcome::Size(Ok(size))) => progress.hands_out(id, size, fd),
        (Stage::Reading(job), Outcome::Chunk(Ok((n, bytes)))) => match JobKindView::Read(
            job@,
        ).settles(n, bytes@, Ok(unknown_stat())) {
            Some(result) => progress.settles(result),
            None => progress.reads_on(job@.took(n, bytes@).grown(), cancelled, errno),
        },
        (Stage::FindingEnd { pos }, Outcome::Size(Ok(size))) => progress.goes_on(
            Stage::ReadingEnd,
            Call::ReadToEnd { pos, capacity: capacity_to_end(size, pos) },
            cancelled,
            errno,
        ),
        (Stage::ReadingEnd, Outcome::Bytes(Ok(data))) => progress.settles(
            Ok(ReplyView::Bytes(data@)),
        ),
        (Stage::Writing { n, pos }, Outcome::Done(Ok(()))) => progress.settles(
            Ok(ReplyView::Written { n, end: (pos + n) as u64 }),
        ),
        (Stage::Appending { n }, Outcome::Done(Ok(()))) => progress.goes_on(
            Stage::FindingAppended { n },
            Call::Metadata,
            cancelled,
            errno,
        ),
        (Stage::FindingAppended { n }, Outcome::Size(Ok(end))) => progress.settles(
            Ok(ReplyView::Written { n, end }),
        ),
        (Stage::Finishing, Outcome::Done(Ok(()))) => progress.settles(Ok(ReplyView::Unit)),
        (Stage::FindingSize, Outcome::Size(Ok(size))) => progress.settles(
            Ok(ReplyView::Size(size)),
        ),
        (Stage::OpeningFile { inline_max }, Outcome::Opened(Ok(fd))) => progress.goes_on(
            Stage::SizingFile { fd, inline_max },
            Call::Metadata,
            cancelled,
            errno,
        ),
        (Stage::SizingFile { fd, inline_max }, Outcome::Size(Ok(size))) => if size > inline_max {
            progress == (Progress::HandOff { size, fd })
        } else {
            progress.goes_on(
                Stage::ReadingFile,
                Call::ReadToEnd { pos: 0, capacity: capacity_to_end(size, 0) },
                cancelled,
                errno,
            )
        },
        (Stage::ReadingFile, Outcome::Bytes(Ok(data))) => progress.goes_on(
            Stage::ClosingRead { bytes: data },
            Call::Close,
            cancelled,
            errno,
        ),
        (Stage::ClosingRead { bytes }, Outcome::Done(Ok(()))) => progress.settles(
            Ok(ReplyView::Bytes(bytes@)),
        ),
        (Stage::OpeningWrite { data }, Outcome::Opened(Ok(_))) => progress.goes_on(
            Stage::WritingFile { n: data@.len() as usize },
            Call::WriteAll { pos: 0, data },
            cancelled,
            errno,
        ),
        (Stage::WritingFile { n }, Outcome::Done(Ok(()))) => progress.goes_on(
            Stage::ClosingWrite { n },
            Call::Close,
            cancelled,
            errno,
        ),
        (Stage::ClosingWrite { n }, Outcome::Done(Ok(()))) => progress.settles(
            Ok(ReplyView::Written { n, end: n as u64 }),
        ),
        _ => false,
    }
}

/// A sized read asks nothing of the file's size.
pub open spec fn unknown_stat() -> Stat {
    Stat { size: 0, regular: false }
}

/// The awaited call of a task came back: settle, or go on to the next call.
/// Any error settles the operation with it.
pub fn resume<'a>(stage: Stage<'a>, outcome: Outcome, cancelled: bool, errno: &Errno) -> (progress:
    Progress<'a>)
    requires
        stage.wf(),
        stage.expects(outcome),
    ensures
        progress.wf(),
        match failure(outcome) {
            Some(e) => progress.settles(Err(e)),
            None => continues(stage, outcome, cancelled, *errno, progress),
        },
{
    match outcome {
        Outcome::Opened(Err(e)) => settle(Err(e)),
        Outcome::Size(Err(e)) => settle(Err(e)),
        Outcome::Chunk(Err(e)) => settle(Err(e)),
        Outcome::Bytes(Err(e)) => settle(Err(e)),
        Outcome::Done(Err(e)) => settle(Err(e)),
        Outcome::Opened(Ok(fd)) => after_open(stage, fd, cancelled, errno),
        Outcome::Size(Ok(size)) => after_size(stage, size, cancelled, errno),
        Outcome::Bytes(Ok(data)) => match stage {
            Stage::ReadingFile => go_on(
                Stage::ClosingRead { bytes: data },
                Call::Close,
                cancelled,
                errno,
            ),
            _ => settle(Ok(Reply::Bytes(data))),
        },
        Outcome::Done(Ok(())) => after_done(stage, cancelled, errno),
        Outcome::Chunk(Ok((n, bytes))) => match stage {
            Stage::Reading(job) => {
                let mut job = job;
                let unknown: Result<Stat, Error> = Ok(Stat { size: 0, regular: false });
                match job.take(n, bytes, &unknown) {
                    Some(reply) => settle(Ok(reply)),
                    None => read_on(job, cancelled, errno),
                }
            },
            _ => settle(Ok(Reply::Unit)),
        },
    }
}

/// The open of a task went well.
fn after_open<'a>(stage: Stage<'a>, fd: i64, cancelled: bool, errno: &Errno) -> (progress: Progress<
    'a,
>)
    requires
        stage.wf(),
        stage.expects(Outcome::Opened(Ok(fd))),
    ensures
        progress.wf(),
        continues(stage, Outcome::Opened(Ok(fd)), cancelled, *errno, progress),
{
    match stage {
        Stage::OpeningFile { inline_max } => go_on(
            Stage::SizingFile { fd, inline_max },
            Call::Metadata,
            cancelled,
            errno,
        ),
        Stage::OpeningWrite { data } => {
            let n: usize = data.len();
            go_on(Stage::WritingFile { n }, Call::WriteAll { pos: 0, data }, cancelled, errno)
        },
        Stage::Opening { id } => go_on(
            Stage::Sizing { id, fd },
            Call::Metadata,
            cancelled,
            errno,
        ),
        _ => settle(Ok(Reply::Unit)),
    }
}

/// A size that a task asked for came back.
fn after_size<'a>(stage: Stage<'a>, size: u64, cancelled: bool, errno: &Errno) -> (progress:
    Progress<'a>)
    requires
        stage.wf(),
        stage.expects(Outcome::Size(Ok(size))),
    ensures
        progress.wf(),
        continues(stage, Outcome::Size(Ok(size)), cancelled, *errno, progress),
{
    match stage {
        Stage::Sizing { id, fd } => Progress::Settled {
            result: Ok(Reply::Handle { id, size, fd }),
            register: Some(id),
        },
        Stage::FindingEnd { pos } => {
            let rest: usize = size.saturating_sub(pos) as usize;
            let capacity: usize = rest.saturating_add(1);
            go_on(Stage::ReadingEnd, Call::ReadToEnd { pos, capacity }, cancelled, errno)
        },
        Stage::FindingAppended { n } => settle(Ok(Reply::Written { n, end: size })),
        Stage::SizingFile { fd, inline_max } => {
            if size > inline_max {
                return Progress::HandOff { size, fd };
            }
            let whole: usize = size as usize;
            let capacity: usize = whole.saturating_add(1);
            go_on(Stage::ReadingFile, Call::ReadToEnd { pos: 0, capacity }, cancelled, errno)
        },
        _ => settle(Ok(Reply::Size(size))),
    }
}

/// A call without a result of its own went well.
fn after_done<'a>(stage: Stage<'a>, cancelled: bool, errno: &Errno) -> (progress: Progress<'a>)
    requires
        stage.wf(),
        stage.expects(Outcome::Done(Ok(()))),
    ensures
        progress.wf(),
        continues(stage, Outcome::Done(Ok(())), cancelled, *errno, progress),
{
    match stage {
        Stage::Writing { n, pos } => settle(Ok(Reply::Written { n, end: pos + n as u64 })),
        Stage::Appending { n } => go_on(
            Stage::FindingAppended { n },
            Call::Metadata,
            cancelled,
            errno,
        ),
        Stage::ClosingRead { bytes } => settle(Ok(Reply::Bytes(bytes))),
        Stage::WritingFile { n } => go_on(
            Stage::ClosingWrite { n },
            Call::Close,
            cancelled,
            errno,
        ),
        Stage::ClosingWrite { n } => settle(Ok(Reply::Written { n, end: n as u64 })),
        _ => settle(Ok(Reply::Unit)),
    }
}

/// An append in pieces, each at the end of the file.
pub struct AppendJob<'a> {
    pub data: Payload<'a>,
    pub written: usize,
}

/// What is left of a payload after `written` bytes of it, if anything is.
pub open spec fn left_of(data: Seq<u8>, written: int) -> Option<Seq<u8>> {
    if written < data.len() {
        Some(data.skip(written))
    } else {
        None
    }
}

/// How many bytes the writes took together.
pub open spec fn taken_by(counts: Seq<usize>) -> int
    decreases counts.len(),
{
    if counts.len() == 0 {
        0
    } else {
        taken_by(counts.drop_last()) + counts.last()
    }
}

/// Whether the writes can have been those of an append of `data`: each of what
/// was left, and of no more.
pub open spec fn appends(data: Seq<u8>, counts: Seq<usize>) -> bool
    decreases counts.len(),
{
    counts.len() == 0 || {
        &&& appends(data, counts.drop_last())
        &&& left_of(data, taken_by(counts.drop_last())) matches Some(rest) && counts.last()
            <= rest.len()
    }
}

/// The file after the writes, each of which put its bytes at the end.
pub open spec fn appended(file: Seq<u8>, data: Seq<u8>, counts: Seq<usize>) -> Seq<u8>
    decreases counts.len(),
{
    if counts.len() == 0 {
        file
    } else {
        appended(file, data, counts.drop_last()) + left_of(
            data,
            taken_by(counts.drop_last()),
        )->0.take(counts.last() as int)
    }
}

/// An append in pieces puts its payload behind what the file held, every byte
/// once and in order: whatever the writes took so far is there, and once
/// nothing is left, all of it is.
pub proof fn an_append_in_pieces_puts_its_payload_at_the_end(
    file: Seq<u8>,
    data: Seq<u8>,
    counts: Seq<usize>,
)
    requires
        appends(data, counts),
    ensures
        0 <= taken_by(counts) <= data.len(),
        appended(file, data, counts) == file + data.take(taken_by(counts)),
        left_of(data, taken_by(counts)) is None ==> appended(file, data, counts) == file + data,
        left_of(data, taken_by(counts)) matches Some(rest) ==> rest.len() > 0,
    decreases counts.len(),
{
    if counts.len() == 0 {
        assert(file + data.take(0) =~= file);
    } else {
        an_append_in_pieces_puts_its_payload_at_the_end(file, data, counts.drop_last());
        let before = taken_by(counts.drop_last());
        let now = taken_by(counts);
        assert(data.take(now) =~= data.take(before) + data.skip(before).take(now - before));
        assert(appended(file, data, counts) =~= file + data.take(now));
    }
    if taken_by(counts) == data.len() {
        assert(data.take(data.len() as int) =~= data);
    }
}

/// The allocation of a read to end holds all that the file is said to hold from
/// the position on, and one byte more to see the end in, as far as a length can
/// go.
pub proof fn a_read_to_end_has_room_to_see_the_end(size: u64, pos: u64)
    ensures
        capacity_to_end(size, pos) >= 1,
        size <= pos ==> capacity_to_end(size, pos) == 1,
        size > pos && size - pos < usize::MAX ==> capacity_to_end(size, pos) == size - pos + 1,
{
}

impl<'a> AppendJob<'a> {
    pub open spec fn wf(self) -> bool {
        self.written <= self.data@.len()
    }

    /// An append of all of `data`.
    pub fn new(data: Payload<'a>) -> (job: Self)
        ensures
            job.wf(),
            job.data == data,
            job.written == 0,
    {
        AppendJob { data, written: 0 }
    }

    /// The bytes to write next, `None` once all are written.
    pub fn rest(&self) -> (rest: Option<&[u8]>)
        requires
            self.wf(),
        ensures
            match rest {
                Some(bytes) => bytes@ == self.data@.skip(self.written as int) && bytes@.len() > 0,
                None => self.written == self.data@.len(),
            },
            match rest {
                Some(bytes) => left_of(self.data@, self.written as int) == Some(bytes@),
                None => left_of(self.data@, self.written as int) is None,
            },
    {
        let all = self.data.as_slice();
        if self.written < all.len() {
            assert(all@.subrange(self.written as int, all@.len() as int) =~= all@.skip(
                self.written as int,
            ));
            Some(vstd::slice::slice_subrange(all, self.written, all.len()))
        } else {
            None
        }
    }

    /// A write of what was left returned `n`: that many bytes are at the end
    /// of the file, or `Err` when the call failed.
    pub fn wrote(&mut self, n: Result<usize, Error>) -> (going: Result<(), Error>)
        requires
            old(self).wf(),
            n matches Ok(n) ==> n <= old(self).data@.len() - old(self).written,
        ensures
            final(self).wf(),
            final(self).data == old(self).data,
            match n {
                Ok(n) => going is Ok && final(self).written == old(self).written + n,
                Err(e) => going == Err::<(), Error>(e) && final(self).written == old(self).written,
            },
    {
        match n {
            Ok(n) => {
                let _all: usize = self.data.len();
                self.written = self.written + n;
                Ok(())
            },
            Err(e) => Err(e),
        }
    }
}

/// What a runtime backend keeps between its tasks, as mathematics.
pub struct RuntimeView<F> {
    pub files: Map<u64, F>,
    pub next_id: u64,
    pub running: Set<u64>,
    pub cancelled: Set<u64>,
}

/// What a runtime backend keeps between its tasks: the open files by handle,
/// the id of the next handle, the operations that have not settled, and which
/// of them are to stop.
pub struct Runtime<F> {
    pub files: HashMap<u64, F>,
    pub next_id: u64,
    pub running: HashSet<u64>,
    pub cancelled: HashSet<u64>,
}

impl<F> View for Runtime<F> {
    type V = RuntimeView<F>;

    open spec fn view(&self) -> RuntimeView<F> {
        RuntimeView {
            files: self.files@,
            next_id: self.next_id,
            running: self.running@,
            cancelled: self.cancelled@,
        }
    }
}

impl<F> RuntimeView<F> {
    /// Only operations that have not settled are to stop, and a handle that is
    /// open was given out.
    pub open spec fn wf(self) -> bool {
        &&& self.next_id >= 1
        &&& forall|id: u64| #[trigger] self.cancelled.contains(id) ==> self.running.contains(id)
        &&& forall|h: u64| #[trigger] self.files.contains_key(h) ==> 1 <= h < self.next_id
    }
}

impl<F> Runtime<F> {
    /// No file and no task.
    pub fn new() -> (runtime: Self)
        ensures
            runtime@.wf(),
            runtime@ == (RuntimeView {
                files: Map::<u64, F>::empty(),
                next_id: 1,
                running: Set::empty(),
                cancelled: Set::empty(),
            }),
    {
        Runtime {
            files: HashMap::new(),
            next_id: 1,
            running: HashSet::new(),
            cancelled: HashSet::new(),
        }
    }

    /// Take in the operation with the given id. An open gets the next handle id
    /// set aside.
    pub fn enter<'a>(&mut self, id: u64, op: &Op<'a>) -> (open_id: Option<u64>)
        requires
            old(self)@.wf(),
            *op is Open ==> old(self)@.next_id < u64::MAX,
        ensures
            final(self)@.wf(),
            if *op is Open {
                &&& open_id == Some(old(self)@.next_id)
                &&& !old(self)@.files.contains_key(old(self)@.next_id)
                &&& final(self)@ == (RuntimeView {
                    next_id: (old(self)@.next_id + 1) as u64,
                    running: old(self)@.running.insert(id),
                    ..old(self)@
                })
            } else {
                &&& open_id is None
                &&& final(self)@ == (RuntimeView {
                    running: old(self)@.running.insert(id),
                    ..old(self)@
                })
            },
            old(self)@.takes(final(self)@, TableEvent::Entered { id, op: *op, open_id }),
    {
        self.running.insert(id);
        match op {
            Op::Open { .. } => {
                let open_id: u64 = self.next_id;
                self.next_id = open_id + 1;
                Some(open_id)
            },
            _ => None,
        }
    }

    /// A cancel request. An operation that has settled, or that never was, is
    /// left alone.
    pub fn cancel(&mut self, id: u64)
        requires
            old(self)@.wf(),
        ensures
            final(self)@.wf(),
            final(self)@ == (if old(self)@.running.contains(id) {
                RuntimeView { cancelled: old(self)@.cancelled.insert(id), ..old(self)@ }
            } else {
                old(self)@
            }),
            old(self)@.takes(final(self)@, TableEvent::Cancelled { id }),
    {
        if self.running.contains(&id) {
            self.cancelled.insert(id);
        }
    }

    /// Whether the operation is to stop before its next transfer.
    pub fn is_cancelled(&self, id: u64) -> (yes: bool)
        ensures
            yes == self@.cancelled.contains(id),
    {
        self.cancelled.contains(&id)
    }

    /// The operation has settled.
    pub fn settled(&mut self, id: u64)
        requires
            old(self)@.wf(),
        ensures
            final(self)@.wf(),
            final(self)@ == (RuntimeView {
                running: old(self)@.running.remove(id),
                cancelled: old(self)@.cancelled.remove(id),
                ..old(self)@
            }),
            old(self)@.takes(final(self)@, TableEvent::Settled { id }),
    {
        self.running.remove(&id);
        self.cancelled.remove(&id);
        assert(self@.running =~= old(self)@.running.remove(id));
        assert(self@.cancelled =~= old(self)@.cancelled.remove(id));
    }

    /// Keep the file that a task opened as the handle of the given id.
    pub fn register(&mut self, id: u64, file: F)
        requires
            old(self)@.wf(),
            1 <= id < old(self)@.next_id,
        ensures
            final(self)@.wf(),
            final(self)@ == (RuntimeView {
                files: old(self)@.files.insert(id, file),
                ..old(self)@
            }),
            old(self)@.takes(final(self)@, TableEvent::Registered { id, file }),
    {
        self.files.insert(id, file);
    }
}

impl<F> Runtime<F> {
    /// Keep the file of a whole-file read as a handle of its own, the next one,
    /// and reply it.
    pub fn hand_off(&mut self, size: u64, fd: i64, file: F) -> (reply: Reply)
        requires
            old(self)@.wf(),
            old(self)@.next_id < u64::MAX,
        ensures
            final(self)@.wf(),
            reply@ == (ReplyView::Handle { id: old(self)@.next_id, size, fd }),
            !old(self)@.files.contains_key(old(self)@.next_id),
            final(self)@ == (RuntimeView {
                files: old(self)@.files.insert(old(self)@.next_id, file),
                next_id: (old(self)@.next_id + 1) as u64,
                ..old(self)@
            }),
            old(self)@.takes(final(self)@, TableEvent::HandedOff { size, fd, file, reply }),
    {
        let id: u64 = self.next_id;
        self.next_id = id + 1;
        self.files.insert(id, file);
        Reply::Handle { id, size, fd }
    }
}

impl<F: Clone> Runtime<F> {
    /// The file of an open handle.
    pub fn lookup(&self, handle: u64) -> (file: Result<F, Error>)
        ensures
            match file {
                Ok(f) => self@.files.contains_key(handle) && cloned(self@.files[handle], f),
                Err(e) => !self@.files.contains_key(handle) && e == bad_handle_spec(),
            },
    {
        match self.files.get(&handle) {
            Some(file) => Ok(file.clone()),
            None => Err(bad_handle()),
        }
    }

    /// The file that an operation starts with: that of its handle, which a
    /// close takes out of the table. An operation that was cancelled before it
    /// started, or whose handle is not open, gets the error to settle with.
    pub fn start<'a>(&mut self, id: u64, op: &Op<'a>, errno: &Errno) -> (file: Result<
        Option<F>,
        Error,
    >)
        requires
            old(self)@.wf(),
        ensures
            final(self)@.wf(),
            if old(self)@.cancelled.contains(id) {
                &&& file == Err::<Option<F>, Error>(cancelled_spec(*errno))
                &&& final(self)@ == old(self)@
            } else {
                match op.handle() {
                    None => file == Ok::<Option<F>, Error>(None) && final(self)@ == old(self)@,
                    Some(h) => if !old(self)@.files.contains_key(h) {
                        &&& file == Err::<Option<F>, Error>(bad_handle_spec())
                        &&& final(self)@ == old(self)@
                    } else if *op is Close {
                        &&& file == Ok::<Option<F>, Error>(Some(old(self)@.files[h]))
                        &&& final(self)@ == (RuntimeView {
                            files: old(self)@.files.remove(h),
                            ..old(self)@
                        })
                    } else {
                        &&& file matches Ok(Some(f)) && cloned(old(self)@.files[h], f)
                        &&& final(self)@ == old(self)@
                    },
                }
            },
            old(self)@.takes(final(self)@, TableEvent::Started { id, op: *op, errno: *errno, file }),
    {
        if self.is_cancelled(id) {
            return Err(cancelled_error(errno));
        }
        let handle: u64 = match op {
            Op::Open { .. } | Op::ReadFile { .. } | Op::WriteFile { .. } | Op::Nop => {
                return Ok(None);
            },
            Op::Close { handle } => {
                return match self.files.remove(handle) {
                    Some(file) => Ok(Some(file)),
                    None => {
                        assert(self@.files =~= old(self)@.files);
                        Err(bad_handle())
                    },
                };
            },
            Op::ReadAt { handle, .. } => *handle,
            Op::ReadToEnd { handle, .. } => *handle,
            Op::WriteAt { handle, .. } => *handle,
            Op::Sync { handle, .. } => *handle,
            Op::SetLen { handle, .. } => *handle,
            Op::Size { handle } => *handle,
        };
        match self.lookup(handle) {
            Ok(file) => Ok(Some(file)),
            Err(e) => Err(e),
        }
    }
}

/// A cancelled task makes no further transfer: it settles as cancelled in
/// place of the next one, or with what its last call brought.
pub proof fn a_cancelled_task_transfers_no_more<'a>(
    stage: Stage<'a>,
    outcome: Outcome,
    errno: Errno,
    progress: Progress<'a>,
)
    requires
        stage.wf(),
        stage.expects(outcome),
        match failure(outcome) {
            Some(e) => progress.settles(Err(e)),
            None => continues(stage, outcome, true, errno, progress),
        },
    ensures
        progress matches Progress::Await { call, .. } ==> !call.transfers(),
{
}

/// A whole-file read of a file of at most `inline_max` bytes goes on to read
/// it; a larger file comes back as an open handle with its size.
pub proof fn a_large_file_is_handed_off<'a>(
    fd: i64,
    inline_max: u64,
    size: u64,
    errno: Errno,
    progress: Progress<'a>,
)
    requires
        continues(
            Stage::SizingFile { fd, inline_max },
            Outcome::Size(Ok(size)),
            false,
            errno,
            progress,
        ),
    ensures
        size > inline_max ==> progress == (Progress::HandOff { size, fd }),
        size <= inline_max ==> (progress matches Progress::Await { call, .. } && call is ReadToEnd),
{
}

/// A task keeps its file open beyond its end exactly when it replies a handle:
/// an open under the id set aside for it, a whole-file read of a file that is
/// too large under a new one.
pub proof fn a_file_stays_open_as_a_handle_only<'a>(
    stage: Stage<'a>,
    outcome: Outcome,
    cancelled: bool,
    errno: Errno,
    progress: Progress<'a>,
)
    requires
        stage.wf(),
        stage.expects(outcome),
        match failure(outcome) {
            Some(e) => progress.settles(Err(e)),
            None => continues(stage, outcome, cancelled, errno, progress),
        },
    ensures
        match progress {
            Progress::Await { .. } => true,
            Progress::Settled { result, register } => register == (match result {
                Ok(Reply::Handle { id, .. }) => Some(id),
                _ => None,
            }),
            Progress::HandOff { size, fd } => stage matches Stage::SizingFile {
                fd: opened,
                inline_max,
            } && fd == opened && outcome == Outcome::Size(Ok(size)) && size > inline_max,
        },
{
}

} // verus!
