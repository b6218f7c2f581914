//! One transfer in chunks: which bytes to ask for next, and what to make of
//! the count that came back.

use vstd::prelude::*;

use crate::error::Error;
use crate::op::{outcome, Payload, Reply, ReplyView};

verus! {

/// The least a read to end grows by once its buffer is full.
pub const GROWTH_MIN: usize = 65536;

/// What `fstat` tells of a descriptor.
#[derive(Debug, Clone, Copy, PartialEq, Eq, Structural)]
pub struct Stat {
    pub size: u64,
    /// Whether the descriptor is a regular file. The size of anything else
    /// means nothing.
    pub regular: bool,
}

/// The size that can be trusted: that of a regular file.
pub open spec fn regular_size(stat: Result<Stat, Error>) -> Option<u64> {
    match stat {
        Ok(s) if s.regular => Some(s.size),
        _ => None,
    }
}

/// The size that was reported, whatever the descriptor is.
pub open spec fn reported_size(stat: Result<Stat, Error>) -> Result<u64, Error> {
    match stat {
        Ok(s) => Ok(s.size),
        Err(e) => Err(e),
    }
}

/// The size of a regular file, or `None` for anything else and for a
/// descriptor that cannot be asked.
pub fn regular_file_size(stat: &Result<Stat, Error>) -> (size: Option<u64>)
    ensures
        size == regular_size(*stat),
{
    match stat {
        Ok(s) => if s.regular {
            Some(s.size)
        } else {
            None
        },
        Err(_) => None,
    }
}

/// The size that `fstat` reported.
pub fn fd_size(stat: &Result<Stat, Error>) -> (size: Result<u64, Error>)
    ensures
        size == reported_size(*stat),
{
    match stat {
        Ok(s) => Ok(s.size),
        Err(e) => Err(*e),
    }
}

/// How much a read is to bring.
#[derive(Debug, Clone, Copy, PartialEq, Eq, Structural)]
pub enum Want {
    Exact(usize),
    ToEnd,
}

/// Where a chunk of a read is put.
#[derive(Debug, Clone, Copy, PartialEq, Eq, Structural)]
pub enum Target {
    /// A fresh allocation, handed back with the completion.
    Fresh,
    /// Caller-owned memory at this address.
    At(usize),
}

/// What a read fills. `Owned` holds the bytes read so far and the number of
/// bytes it is meant to take before it grows.
#[derive(Debug)]
pub enum ReadBuf {
    Owned { data: Vec<u8>, room: usize },
    External { addr: usize, len: usize },
}

/// [`ReadBuf`] with the bytes as a sequence.
pub enum ReadBufView {
    Owned { data: Seq<u8>, room: usize },
    External { addr: usize, len: usize },
}

impl View for ReadBuf {
    type V = ReadBufView;

    open spec fn view(&self) -> ReadBufView {
        match self {
            ReadBuf::Owned { data, room } => ReadBufView::Owned { data: data@, room: *room },
            ReadBuf::External { addr, len } => ReadBufView::External { addr: *addr, len: *len },
        }
    }
}

impl ReadBufView {
    /// The bytes the buffer is meant to take.
    pub open spec fn room(self) -> usize {
        match self {
            ReadBufView::Owned { room, .. } => room,
            ReadBufView::External { len, .. } => len,
        }
    }

    /// `filled` bytes are in, and there is no more in than there is room for.
    pub open spec fn wf(self, filled: usize) -> bool {
        match self {
            ReadBufView::Owned { data, room } => data.len() == filled <= room,
            ReadBufView::External { addr, len } => filled <= len && addr + len <= usize::MAX,
        }
    }

    /// Where the next chunk goes and how long it may be: right behind what is
    /// filled, up to the end of the room.
    pub open spec fn chunk(self, filled: usize) -> (Target, usize) {
        (
            match self {
                ReadBufView::Owned { .. } => Target::Fresh,
                ReadBufView::External { addr, .. } => Target::At((addr + filled) as usize),
            },
            (self.room() - filled) as usize,
        )
    }
}

impl ReadBuf {
    /// Where the next chunk goes, and how many bytes it may take.
    pub fn chunk(&self, filled: usize) -> (chunk: (Target, usize))
        requires
            self@.wf(filled),
        ensures
            chunk == self@.chunk(filled),
            // An external chunk ends where the caller's memory does.
            self@ matches ReadBufView::External { addr, len } ==> (chunk.0 matches Target::At(a)
                && addr <= a && a + chunk.1 == addr + len),
    {
        match self {
            ReadBuf::Owned { room, .. } => (Target::Fresh, *room - filled),
            ReadBuf::External { addr, len } => (Target::At(*addr + filled), *len - filled),
        }
    }
}

/// A read of a handle, or of a descriptor that the read itself owns.
#[derive(Debug)]
pub struct ReadJob {
    pub handle: Option<u64>,
    pub fd: i32,
    pub owned_fd: bool,
    pub pos: u64,
    pub want: Want,
    pub buf: ReadBuf,
    pub filled: usize,
}

/// [`ReadJob`] with the bytes as a sequence.
pub struct ReadJobView {
    pub handle: Option<u64>,
    pub fd: i32,
    pub owned_fd: bool,
    pub pos: u64,
    pub want: Want,
    pub buf: ReadBufView,
    pub filled: usize,
}

impl View for ReadJob {
    type V = ReadJobView;

    open spec fn view(&self) -> ReadJobView {
        ReadJobView {
            handle: self.handle,
            fd: self.fd,
            owned_fd: self.owned_fd,
            pos: self.pos,
            want: self.want,
            buf: self.buf@,
            filled: self.filled,
        }
    }
}

impl ReadJobView {
    pub open spec fn wf(self) -> bool {
        &&& self.buf.wf(self.filled)
        &&& match self.want {
            Want::Exact(len) => len == self.buf.room(),
            Want::ToEnd => self.buf is Owned,
        }
        &&& self.pos + self.filled <= u64::MAX
        &&& self.owned_fd == self.handle is None
    }

    /// Whether the bytes read so far are all that was asked for: the count of
    /// a sized read, the current end of a regular file for a read to end.
    pub open spec fn complete(self, stat: Result<Stat, Error>) -> bool {
        match self.want {
            Want::Exact(len) => self.filled >= len,
            Want::ToEnd => regular_size(stat) matches Some(size) && self.pos + self.filled >= size,
        }
    }

    /// The job after `n` more bytes, `bytes` of them into an owned buffer.
    pub open spec fn took(self, n: usize, bytes: Seq<u8>) -> ReadJobView {
        ReadJobView {
            buf: match self.buf {
                ReadBufView::Owned { data, room } => ReadBufView::Owned { data: data + bytes, room },
                ReadBufView::External { .. } => self.buf,
            },
            filled: (self.filled + n) as usize,
            ..self
        }
    }

    /// The job made ready for another chunk: a full owned buffer at least
    /// doubles, and takes at least `GROWTH_MIN` bytes more.
    pub open spec fn grown(self) -> ReadJobView {
        ReadJobView {
            buf: match self.buf {
                ReadBufView::Owned { data, room } if self.filled == room => ReadBufView::Owned {
                    data,
                    room: grown_room(room),
                },
                _ => self.buf,
            },
            ..self
        }
    }

    /// The job after its reply was taken out of it: an owned buffer is left
    /// empty.
    pub open spec fn drained(self) -> ReadJobView {
        ReadJobView {
            buf: match self.buf {
                ReadBufView::Owned { room, .. } => ReadBufView::Owned { data: Seq::empty(), room },
                ReadBufView::External { .. } => self.buf,
            },
            ..self
        }
    }

    /// What the read replies once it is done.
    pub open spec fn reply(self) -> ReplyView {
        match self.buf {
            ReadBufView::Owned { data, .. } => ReplyView::Bytes(data),
            ReadBufView::External { .. } => ReplyView::Read { n: self.filled },
        }
    }
}

/// The room of a full buffer after it grew, as far as a length can go.
pub open spec fn grown_room(room: usize) -> usize {
    let more = if room < GROWTH_MIN {
        GROWTH_MIN
    } else {
        room
    };
    if room + more > usize::MAX {
        usize::MAX
    } else {
        (room + more) as usize
    }
}

/// A full buffer at least doubles, and takes 64 KiB more at least, as far as a
/// length can go. So its room grows whenever it can.
pub proof fn a_full_buffer_at_least_doubles(room: usize)
    ensures
        grown_room(room) >= 2 * room || grown_room(room) == usize::MAX,
        grown_room(room) >= room + 0x1_0000 || grown_room(room) == usize::MAX,
        grown_room(room) == 2 * room || grown_room(room) == room + 0x1_0000 || grown_room(room)
            == usize::MAX,
        room < usize::MAX ==> grown_room(room) > room,
{
}

/// The end of a file is known by its size only where the file is a regular one;
/// a size that is asked for is told of any file, and the error where there is
/// one.
pub proof fn only_a_regular_file_ends_at_its_size(stat: Stat, e: Error)
    ensures
        stat.regular ==> regular_size(Ok(stat)) == Some(stat.size),
        !stat.regular ==> regular_size(Ok(stat)) is None,
        regular_size(Err(e)) is None,
        reported_size(Ok(stat)) == Ok::<u64, Error>(stat.size),
        reported_size(Err(e)) == Err::<u64, Error>(e),
{
}

impl ReadJob {
    /// Whether the bytes read so far are all the op asked for: the requested
    /// count for a sized read, the file's current end for a read to end. Only
    /// a regular file's size is trusted; anything else reads on until a
    /// zero-length result.
    pub fn complete(&self, stat: &Result<Stat, Error>) -> (done: bool)
        requires
            self@.wf(),
        ensures
            done == self@.complete(*stat),
    {
        match self.want {
            Want::Exact(len) => self.filled >= len,
            Want::ToEnd => match regular_file_size(stat) {
                Some(size) => self.pos + self.filled as u64 >= size,
                None => false,
            },
        }
    }
}

/// What a finished read replies: the bytes of an owned buffer, which are
/// taken out of it, or the count for caller-owned memory.
pub fn read_reply(read: &mut ReadJob) -> (reply: Reply)
    ensures
        reply@ == old(read)@.reply(),
        final(read)@ == old(read)@.drained(),
{
    match &mut read.buf {
        ReadBuf::Owned { data, .. } => {
            let mut out: Vec<u8> = Vec::new();
            std::mem::swap(&mut out, data);
            Reply::Bytes(out)
        },
        ReadBuf::External { .. } => Reply::Read { n: read.filled },
    }
}

/// A write to a handle, or to a descriptor that the write itself owns.
#[derive(Debug)]
pub struct WriteJob<'a> {
    pub handle: Option<u64>,
    pub fd: i32,
    pub owned_fd: bool,
    pub pos: u64,
    pub append: bool,
    pub data: Payload<'a>,
    pub filled: usize,
}

/// [`WriteJob`] with the payload as a sequence.
pub struct WriteJobView {
    pub handle: Option<u64>,
    pub fd: i32,
    pub owned_fd: bool,
    pub pos: u64,
    pub append: bool,
    pub data: Seq<u8>,
    pub filled: usize,
}

impl<'a> View for WriteJob<'a> {
    type V = WriteJobView;

    open spec fn view(&self) -> WriteJobView {
        WriteJobView {
            handle: self.handle,
            fd: self.fd,
            owned_fd: self.owned_fd,
            pos: self.pos,
            append: self.append,
            data: self.data@,
            filled: self.filled,
        }
    }
}

impl WriteJobView {
    pub open spec fn wf(self) -> bool {
        &&& self.filled <= self.data.len() <= usize::MAX
        &&& self.append || self.pos + self.filled <= u64::MAX
        &&& self.owned_fd == self.handle is None
    }

    /// The job after `n` more bytes were written.
    pub open spec fn took(self, n: usize) -> WriteJobView {
        WriteJobView { filled: (self.filled + n) as usize, ..self }
    }

    /// What the write settles with once everything is written: the count and
    /// the position behind it, which for an append is the end of the file.
    pub open spec fn result(self, stat: Result<Stat, Error>) -> Result<ReplyView, Error> {
        let n = self.data.len() as usize;
        if self.append {
            match reported_size(stat) {
                Ok(end) => Ok(ReplyView::Written { n, end }),
                Err(e) => Err(e),
            }
        } else {
            Ok(ReplyView::Written { n, end: (self.pos + n) as u64 })
        }
    }
}

/// A flush of a handle to the device.
#[derive(Debug, Clone, Copy, PartialEq, Eq, Structural)]
pub struct FsyncJob {
    pub handle: u64,
    pub fd: i32,
}

#[derive(Debug)]
pub enum JobKind<'a> {
    Read(ReadJob),
    Write(WriteJob<'a>),
    Fsync(FsyncJob),
}

/// [`JobKind`] by the views of what it holds.
pub enum JobKindView {
    Read(ReadJobView),
    Write(WriteJobView),
    Fsync(FsyncJob),
}

impl<'a> View for JobKind<'a> {
    type V = JobKindView;

    open spec fn view(&self) -> JobKindView {
        match self {
            JobKind::Read(read) => JobKindView::Read(read@),
            JobKind::Write(write) => JobKindView::Write(write@),
            JobKind::Fsync(fsync) => JobKindView::Fsync(*fsync),
        }
    }
}

impl<'a> JobKind<'a> {
    /// The handle that the job works on, or `None` for one that owns its
    /// descriptor.
    pub fn handle(&self) -> (handle: Option<u64>)
        ensures
            handle == self@.handle(),
    {
        match self {
            JobKind::Read(read) => read.handle,
            JobKind::Write(write) => write.handle,
            JobKind::Fsync(fsync) => Some(fsync.handle),
        }
    }

    /// The descriptor that the job works on.
    pub fn fd(&self) -> (fd: i32)
        ensures
            fd == self@.fd(),
    {
        match self {
            JobKind::Read(read) => read.fd,
            JobKind::Write(write) => write.fd,
            JobKind::Fsync(fsync) => fsync.fd,
        }
    }
}

/// The system call that moves the next chunk.
#[derive(Debug, Clone, Copy, PartialEq, Eq, Structural)]
pub enum Transfer {
    Read { fd: i32, offset: u64, target: Target, len: usize },
    /// `len` bytes of the payload from its byte `start`.
    Write { fd: i32, offset: u64, start: usize, len: usize },
    Fsync { fd: i32 },
}

/// The blocking system call that moves the next chunk.
#[derive(Debug, Clone, Copy, PartialEq, Eq, Structural)]
pub enum SyncCall {
    Pread { fd: i32, offset: u64, target: Target, len: usize },
    Pwrite { fd: i32, offset: u64, start: usize, len: usize },
    /// A write at the file position, which the kernel keeps at the end of a
    /// file opened for appending.
    Write { fd: i32, start: usize, len: usize },
    Fsync { fd: i32 },
}

impl JobKindView {
    pub open spec fn wf(self) -> bool {
        match self {
            JobKindView::Read(read) => read.wf(),
            JobKindView::Write(write) => write.wf(),
            JobKindView::Fsync(_) => true,
        }
    }

    /// The handle that the job holds open, if it works on one.
    pub open spec fn handle(self) -> Option<u64> {
        match self {
            JobKindView::Read(read) => read.handle,
            JobKindView::Write(write) => write.handle,
            JobKindView::Fsync(fsync) => Some(fsync.handle),
        }
    }

    pub open spec fn fd(self) -> i32 {
        match self {
            JobKindView::Read(read) => read.fd,
            JobKindView::Write(write) => write.fd,
            JobKindView::Fsync(fsync) => fsync.fd,
        }
    }

    /// Whether the descriptor is the job's own, to be closed with it.
    pub open spec fn owned_fd(self) -> bool {
        self.handle() is None
    }

    /// How many bytes the next chunk asks for.
    pub open spec fn asked(self) -> int {
        match self {
            JobKindView::Read(read) => read.buf.room() - read.filled,
            JobKindView::Write(write) => write.data.len() - write.filled,
            JobKindView::Fsync(_) => 0,
        }
    }

    /// Whether a chunk can have come back with the count `n`, the bytes read
    /// being `bytes`: no more than was asked for, at offsets that exist.
    pub open spec fn accepts(self, n: usize, bytes: Seq<u8>) -> bool {
        match self {
            JobKindView::Read(read) => {
                &&& n <= self.asked()
                &&& read.pos + read.filled + n <= u64::MAX
                &&& read.buf is Owned ==> bytes.len() == n
            },
            JobKindView::Write(write) => {
                &&& n <= self.asked()
                &&& write.append || write.pos + write.filled + n <= u64::MAX
            },
            JobKindView::Fsync(_) => true,
        }
    }

    /// The call that moves the next chunk: at the position behind what has
    /// been moved, from or to the place behind it, for all that is left.
    pub open spec fn transfer(self) -> Transfer {
        match self {
            JobKindView::Read(read) => Transfer::Read {
                fd: read.fd,
                offset: (read.pos + read.filled) as u64,
                target: read.buf.chunk(read.filled).0,
                len: read.buf.chunk(read.filled).1,
            },
            JobKindView::Write(write) => Transfer::Write {
                fd: write.fd,
                offset: write.pos.wrapping_add(write.filled as u64),
                start: write.filled,
                len: (write.data.len() - write.filled) as usize,
            },
            JobKindView::Fsync(fsync) => Transfer::Fsync { fd: fsync.fd },
        }
    }

    /// The blocking call for the same chunk. Only an append leaves the place
    /// to the kernel.
    pub open spec fn sync_call(self) -> SyncCall {
        match self.transfer() {
            Transfer::Read { fd, offset, target, len } => SyncCall::Pread {
                fd,
                offset,
                target,
                len,
            },
            Transfer::Write { fd, offset, start, len } => if self->Write_0.append {
                SyncCall::Write { fd, start, len }
            } else {
                SyncCall::Pwrite { fd, offset, start, len }
            },
            Transfer::Fsync { fd } => SyncCall::Fsync { fd },
        }
    }

    /// Whether what follows a chunk of `n` bytes depends on `fstat`: the end
    /// check of a read to end that got something, and the end position of a
    /// finished append.
    pub open spec fn wants_stat(self, n: usize) -> bool {
        match self {
            JobKindView::Read(read) => n != 0 && read.want is ToEnd,
            JobKindView::Write(write) => write.append && write.filled + n >= write.data.len(),
            JobKindView::Fsync(_) => false,
        }
    }

    /// What a chunk of `n` bytes settles the job with, or `None` while there
    /// is more to move. A read ends on a zero-length result or when it is
    /// complete, a write when everything is written, a flush at once.
    pub open spec fn settles(self, n: usize, bytes: Seq<u8>, stat: Result<Stat, Error>) -> Option<
        Result<ReplyView, Error>,
    > {
        match self {
            JobKindView::Read(read) => {
                let after = read.took(n, bytes);
                if n == 0 || after.complete(stat) {
                    Some(Ok(after.reply()))
                } else {
                    None
                }
            },
            JobKindView::Write(write) => if write.took(n).filled < write.data.len() {
                None
            } else {
                Some(write.result(stat))
            },
            JobKindView::Fsync(_) => Some(Ok(ReplyView::Unit)),
        }
    }

    /// The job as it is left behind by the chunk of `n` bytes that settles it:
    /// it has counted them, and the reply has the bytes of an owned buffer.
    pub open spec fn comes_to_rest(self, n: usize, bytes: Seq<u8>) -> JobKindView {
        match self {
            JobKindView::Read(read) => JobKindView::Read(read.took(n, bytes).drained()),
            JobKindView::Write(write) => JobKindView::Write(write.took(n)),
            JobKindView::Fsync(_) => self,
        }
    }

    /// The job as it goes on after a chunk of `n` bytes.
    pub open spec fn goes_on(self, n: usize, bytes: Seq<u8>) -> JobKindView {
        match self {
            JobKindView::Read(read) => JobKindView::Read(read.took(n, bytes).grown()),
            JobKindView::Write(write) => JobKindView::Write(write.took(n)),
            JobKindView::Fsync(_) => self,
        }
    }
}

/// An operation with work for the kernel: its identity, its transfer, and
/// what waits for it.
#[derive(Debug)]
pub struct Job<'a, C> {
    pub id: u64,
    pub cancelled: bool,
    pub kind: JobKind<'a>,
    pub cb: C,
}

/// [`Job`] by the view of its transfer.
pub struct JobView<C> {
    pub id: u64,
    pub cancelled: bool,
    pub kind: JobKindView,
    pub cb: C,
}

impl<'a, C> View for Job<'a, C> {
    type V = JobView<C>;

    open spec fn view(&self) -> JobView<C> {
        JobView { id: self.id, cancelled: self.cancelled, kind: self.kind@, cb: self.cb }
    }
}

impl<'a, C> Job<'a, C> {
    pub open spec fn wf(self) -> bool {
        self.kind@.wf()
    }

    /// The call that moves the next chunk.
    pub fn transfer(&self) -> (call: Transfer)
        requires
            self.wf(),
        ensures
            call == self.kind@.transfer(),
    {
        match &self.kind {
            JobKind::Read(read) => {
                let (target, len) = read.buf.chunk(read.filled);
                Transfer::Read {
                    fd: read.fd,
                    offset: read.pos + read.filled as u64,
                    target,
                    len,
                }
            },
            JobKind::Write(write) => Transfer::Write {
                fd: write.fd,
                offset: write.pos.wrapping_add(write.filled as u64),
                start: write.filled,
                len: write.data.len() - write.filled,
            },
            JobKind::Fsync(fsync) => Transfer::Fsync { fd: fsync.fd },
        }
    }

    /// The blocking call that moves the next chunk.
    pub fn sync_call(&self) -> (call: SyncCall)
        requires
            self.wf(),
        ensures
            call == self.kind@.sync_call(),
    {
        match &self.kind {
            JobKind::Read(read) => {
                let (target, len) = read.buf.chunk(read.filled);
                SyncCall::Pread {
                    fd: read.fd,
                    offset: read.pos + read.filled as u64,
                    target,
                    len,
                }
            },
            JobKind::Write(write) => {
                let len: usize = write.data.len() - write.filled;
                if write.append {
                    SyncCall::Write { fd: write.fd, start: write.filled, len }
                } else {
                    SyncCall::Pwrite {
                        fd: write.fd,
                        offset: write.pos.wrapping_add(write.filled as u64),
                        start: write.filled,
                        len,
                    }
                }
            },
            JobKind::Fsync(fsync) => SyncCall::Fsync { fd: fsync.fd },
        }
    }

    /// The descriptor to `fstat` before [`step`] is told of a chunk of `n`
    /// bytes, or `None` when what follows does not depend on it.
    pub fn wants_stat(&self, n: usize) -> (fd: Option<i32>)
        requires
            self.wf(),
        ensures
            fd == (if self.kind@.wants_stat(n) {
                Some(self.kind@.fd())
            } else {
                None
            }),
    {
        match &self.kind {
            JobKind::Read(read) => match read.want {
                Want::ToEnd if n != 0 => Some(read.fd),
                _ => None,
            },
            JobKind::Write(write) => if write.append && n >= write.data.len() - write.filled {
                Some(write.fd)
            } else {
                None
            },
            JobKind::Fsync(_) => None,
        }
    }

    /// Whether a chunk can have come back with the count `n`, `got` bytes of
    /// it in a fresh allocation.
    pub fn accepts(&self, n: usize, got: usize) -> (yes: bool)
        requires
            self.wf(),
        ensures
            forall|bytes: Seq<u8>|
                bytes.len() == got ==> #[trigger] self.kind@.accepts(n, bytes) == yes,
    {
        match &self.kind {
            JobKind::Read(read) => read.accepts(n, got),
            JobKind::Write(write) => n <= write.data.len() - write.filled && (write.append
                || n as u64 <= u64::MAX - (write.pos + write.filled as u64)),
            JobKind::Fsync(_) => true,
        }
    }
}

impl ReadJob {
    /// Whether a chunk can have come back with the count `n`, `got` bytes of
    /// it in a fresh allocation.
    pub fn accepts(&self, n: usize, got: usize) -> (yes: bool)
        requires
            self@.wf(),
        ensures
            forall|bytes: Seq<u8>|
                bytes.len() == got ==> #[trigger] JobKindView::Read(self@).accepts(n, bytes) == yes,
    {
        let (_, asked) = self.buf.chunk(self.filled);
        let fits: bool = n <= asked && n as u64 <= u64::MAX - (self.pos + self.filled as u64);
        match &self.buf {
            ReadBuf::Owned { .. } => fits && got == n,
            ReadBuf::External { .. } => fits,
        }
    }

    /// A chunk of `n` bytes came back, `bytes` of it in a fresh allocation when
    /// the read fills one: reply, or make room for the next chunk.
    pub fn take(&mut self, n: usize, bytes: Vec<u8>, stat: &Result<Stat, Error>) -> (reply: Option<
        Reply,
    >)
        requires
            old(self)@.wf(),
            JobKindView::Read(old(self)@).accepts(n, bytes@),
        ensures
            match (reply, JobKindView::Read(old(self)@).settles(n, bytes@, *stat)) {
                (Some(reply), Some(settled)) => {
                    &&& settled == Ok::<ReplyView, Error>(reply@)
                    &&& final(self)@ == old(self)@.took(n, bytes@).drained()
                },
                (None, None) => final(self)@.wf() && final(self)@ == old(self)@.took(
                    n,
                    bytes@,
                ).grown(),
                _ => false,
            },
    {
        self.filled = self.filled + n;
        if let ReadBuf::Owned { data, .. } = &mut self.buf {
            let mut bytes = bytes;
            if data.len() == 0 {
                // The first chunk needs no copy.
                std::mem::swap(data, &mut bytes);
            } else {
                data.append(&mut bytes);
            }
        }
        assert(self@ == old(self)@.took(n, bytes@));
        if n == 0 || self.complete(stat) {
            return Some(read_reply(self));
        }
        if let ReadBuf::Owned { room, .. } = &mut self.buf {
            if self.filled == *room {
                let more: usize = if *room < GROWTH_MIN {
                    GROWTH_MIN
                } else {
                    *room
                };
                *room = room.saturating_add(more);
            }
        }
        assert(self@ == old(self)@.took(n, bytes@).grown());
        None
    }
}

/// What a chunk led to.
#[derive(Debug, PartialEq, Eq)]
pub enum Step {
    Done(Result<Reply, Error>),
    More,
}

/// A chunk of `n` bytes came back, `bytes` of it in a fresh allocation when
/// the job reads into one: settle the job, or make it ready for the next
/// chunk. `stat` is consulted only where [`Job::wants_stat`] asks for it.
pub fn step<'a, C>(job: &mut Job<'a, C>, n: usize, bytes: Vec<u8>, stat: &Result<Stat, Error>) -> (r:
    Step)
    requires
        old(job).wf(),
        old(job).kind@.accepts(n, bytes@),
    ensures
        final(job).id == old(job).id,
        final(job).cancelled == old(job).cancelled,
        final(job).cb == old(job).cb,
        match (r, old(job).kind@.settles(n, bytes@, *stat)) {
            (Step::Done(result), Some(settled)) => {
                &&& outcome(result) == settled
                &&& final(job).kind@ == old(job).kind@.comes_to_rest(n, bytes@)
            },
            (Step::More, None) => final(job).wf() && final(job).kind@ == old(job).kind@.goes_on(
                n,
                bytes@,
            ),
            _ => false,
        },
{
    match &mut job.kind {
        JobKind::Read(read) => match read.take(n, bytes, stat) {
            Some(reply) => Step::Done(Ok(reply)),
            None => Step::More,
        },
        JobKind::Write(write) => {
            write.filled = write.filled + n;
            if write.filled < write.data.len() {
                return Step::More;
            }
            let n: usize = write.data.len();
            if write.append {
                match fd_size(stat) {
                    Ok(end) => Step::Done(Ok(Reply::Written { n, end })),
                    Err(e) => Step::Done(Err(e)),
                }
            } else {
                Step::Done(Ok(Reply::Written { n, end: write.pos + n as u64 }))
            }
        },
        JobKind::Fsync(_) => Step::Done(Ok(Reply::Unit)),
    }
}

/// Whatever `fstat` would say, a chunk that does not ask for it leads to the
/// same thing.
pub proof fn stat_matters_only_where_wanted(
    kind: JobKindView,
    n: usize,
    bytes: Seq<u8>,
    one: Result<Stat, Error>,
    other: Result<Stat, Error>,
)
    requires
        kind.wf(),
        kind.accepts(n, bytes),
        !kind.wants_stat(n),
    ensures
        kind.settles(n, bytes, one) == kind.settles(n, bytes, other),
{
}

/// Where a chunk asks for it, what `fstat` says does matter: two answers lead
/// to different things.
pub proof fn stat_is_wanted_only_where_it_matters(
    kind: JobKindView,
    n: usize,
    bytes: Seq<u8>,
    e: Error,
)
    requires
        kind.wf(),
        kind.accepts(n, bytes),
        kind.wants_stat(n),
    ensures
        kind.settles(n, bytes, Ok(Stat { size: 0, regular: true })) != kind.settles(
            n,
            bytes,
            Err(e),
        ),
{
}

/// A job takes whatever its call can come back with: no more than was asked
/// for, at offsets that there are, with its bytes where they were to be handed
/// back.
pub proof fn a_job_takes_every_answer_to_its_call(kind: JobKindView, n: usize, bytes: Seq<u8>)
    requires
        kind.wf(),
        match kind.transfer() {
            Transfer::Read { offset, target, len, .. } => {
                &&& n <= len
                &&& offset + n <= u64::MAX
                &&& target is Fresh ==> bytes.len() == n
            },
            Transfer::Write { len, .. } => {
                &&& n <= len
                &&& kind matches JobKindView::Write(write) && (write.append || write.pos
                    + write.filled + n <= u64::MAX)
            },
            Transfer::Fsync { .. } => true,
        },
    ensures
        kind.accepts(n, bytes),
{
}

/// A blocking call moves just what the request to the kernel would have: the
/// same bytes between the same places, and only an append leaves the place in
/// the file to the kernel.
pub proof fn a_blocking_call_moves_what_a_request_would(kind: JobKindView)
    ensures
        match (kind.transfer(), kind.sync_call()) {
            (
                Transfer::Read { fd, offset, target, len },
                SyncCall::Pread { fd: f, offset: o, target: t, len: l },
            ) => f == fd && o == offset && t == target && l == len,
            (
                Transfer::Write { fd, offset, start, len },
                SyncCall::Pwrite { fd: f, offset: o, start: s, len: l },
            ) => {
                &&& f == fd && o == offset && s == start && l == len
                &&& kind matches JobKindView::Write(write) && !write.append
            },
            (Transfer::Write { fd, start, len, .. }, SyncCall::Write { fd: f, start: s, len: l }) => {
                &&& f == fd && s == start && l == len
                &&& kind matches JobKindView::Write(write) && write.append
            },
            (Transfer::Fsync { fd }, SyncCall::Fsync { fd: f }) => f == fd,
            _ => false,
        },
        kind is Read <==> kind.transfer() is Read,
        kind is Write <==> kind.transfer() is Write,
{
}

/// A job that goes on after a chunk asks for at least one byte more, unless a
/// buffer has reached the greatest length there is; a read has moved on.
pub proof fn next_chunk_is_never_empty(
    kind: JobKindView,
    n: usize,
    bytes: Seq<u8>,
    stat: Result<Stat, Error>,
)
    requires
        kind.wf(),
        kind.accepts(n, bytes),
        kind.settles(n, bytes, stat) is None,
    ensures
        kind.goes_on(n, bytes).asked() > 0 || (kind.goes_on(n, bytes) matches JobKindView::Read(r)
            && r.filled == usize::MAX),
        kind is Read ==> n > 0,
{
}

/// A job keeps its handle, its descriptor and its position through every
/// chunk, and nothing it moved is moved again: the next call starts where the
/// chunk ended.
pub proof fn chunks_are_contiguous(kind: JobKindView, n: usize, bytes: Seq<u8>)
    requires
        kind.wf(),
        kind.accepts(n, bytes),
        !(kind is Fsync),
    ensures
        kind.goes_on(n, bytes).handle() == kind.handle(),
        kind.goes_on(n, bytes).fd() == kind.fd(),
        match (kind.transfer(), kind.goes_on(n, bytes).transfer()) {
            (
                Transfer::Read { offset: a, target: s, .. },
                Transfer::Read { offset: b, target: t, .. },
            ) => b == a + n && match (s, t) {
                (Target::At(x), Target::At(y)) => y == x + n,
                (Target::Fresh, Target::Fresh) => true,
                _ => false,
            },
            (
                Transfer::Write { offset: a, start: s, len: l, .. },
                Transfer::Write { offset: b, start: t, len: m, .. },
            ) => b == a.wrapping_add(n as u64) && t == s + n && m == l - n,
            _ => false,
        },
{
}

} // verus!
