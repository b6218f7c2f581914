//! A whole transfer, from its first chunk to the one that settles it: what it
//! replies is what the chunks moved.

use vstd::prelude::*;

use crate::error::Error;
use crate::job::{
    regular_size, JobKindView, ReadBufView, ReadJobView, Stat, Target, Transfer, Want,
    WriteJobView,
};
use crate::op::ReplyView;

verus! {

/// One chunk as it came back.
pub struct Moved {
    pub n: usize,
    pub bytes: Seq<u8>,
    pub stat: Result<Stat, Error>,
}

/// The transfer after `chunks`.
pub open spec fn after(kind: JobKindView, chunks: Seq<Moved>) -> JobKindView
    decreases chunks.len(),
{
    if chunks.len() == 0 {
        kind
    } else {
        after(kind, chunks.drop_last()).goes_on(chunks.last().n, chunks.last().bytes)
    }
}

/// How many bytes `chunks` moved.
pub open spec fn count(chunks: Seq<Moved>) -> nat
    decreases chunks.len(),
{
    if chunks.len() == 0 {
        0
    } else {
        count(chunks.drop_last()) + chunks.last().n as nat
    }
}

/// The bytes of `chunks`, one behind the other.
pub open spec fn content(chunks: Seq<Moved>) -> Seq<u8>
    decreases chunks.len(),
{
    if chunks.len() == 0 {
        Seq::empty()
    } else {
        content(chunks.drop_last()) + chunks.last().bytes
    }
}

/// Whether the transfer can have gone through `chunks`, each of them leaving
/// more to move.
pub open spec fn goes_through(kind: JobKindView, chunks: Seq<Moved>) -> bool
    decreases chunks.len(),
{
    chunks.len() == 0 || {
        let before = after(kind, chunks.drop_last());
        let last = chunks.last();
        &&& goes_through(kind, chunks.drop_last())
        &&& before.accepts(last.n, last.bytes)
        &&& before.settles(last.n, last.bytes, last.stat) is None
    }
}

/// Whether the transfer goes through `chunks` and the chunk `last` behind them
/// settles it with `result`.
pub open spec fn ends(
    kind: JobKindView,
    chunks: Seq<Moved>,
    last: Moved,
    result: Result<ReplyView, Error>,
) -> bool {
    &&& goes_through(kind, chunks)
    &&& after(kind, chunks).accepts(last.n, last.bytes)
    &&& after(kind, chunks).settles(last.n, last.bytes, last.stat) == Some(result)
}

/// What a read holds after `chunks`.
proof fn lemma_read_holds(read: ReadJobView, chunks: Seq<Moved>)
    requires
        read.wf(),
        read.filled == 0,
        goes_through(JobKindView::Read(read), chunks),
    ensures
        after(JobKindView::Read(read), chunks) matches JobKindView::Read(now) && {
            &&& now.wf()
            &&& now.filled == count(chunks)
            &&& now.handle == read.handle
            &&& now.fd == read.fd
            &&& now.pos == read.pos
            &&& now.want == read.want
            &&& match (read.buf, now.buf) {
                (ReadBufView::Owned { .. }, ReadBufView::Owned { data, .. }) => data == content(
                    chunks,
                ),
                (ReadBufView::External { .. }, ReadBufView::External { .. }) => now.buf == read.buf,
                _ => false,
            }
        },
    decreases chunks.len(),
{
    if chunks.len() == 0 {
        if let ReadBufView::Owned { data, .. } = read.buf {
            assert(data =~= content(chunks));
        }
    } else {
        lemma_read_holds(read, chunks.drop_last());
    }
}

/// What a write has left after `chunks`.
proof fn lemma_write_holds(write: WriteJobView, chunks: Seq<Moved>)
    requires
        write.wf(),
        write.filled == 0,
        goes_through(JobKindView::Write(write), chunks),
    ensures
        count(chunks) <= write.data.len(),
        after(JobKindView::Write(write), chunks) == JobKindView::Write(
            WriteJobView { filled: count(chunks) as usize, ..write },
        ),
    decreases chunks.len(),
{
    if chunks.len() > 0 {
        lemma_write_holds(write, chunks.drop_last());
    }
}

/// A read replies exactly the bytes that its chunks brought, in their order,
/// or how many they were when they went to the caller's memory.
pub proof fn a_read_replies_what_its_chunks_brought(
    read: ReadJobView,
    chunks: Seq<Moved>,
    last: Moved,
    result: Result<ReplyView, Error>,
)
    requires
        read.wf(),
        read.filled == 0,
        ends(JobKindView::Read(read), chunks, last, result),
    ensures
        result == Ok::<ReplyView, Error>(
            match read.buf {
                ReadBufView::Owned { .. } => ReplyView::Bytes(content(chunks.push(last))),
                ReadBufView::External { .. } => ReplyView::Read {
                    n: count(chunks.push(last)) as usize,
                },
            },
        ),
        count(chunks.push(last)) <= usize::MAX,
        read.buf is Owned ==> content(chunks.push(last)).len() == count(chunks.push(last)),
{
    lemma_read_holds(read, chunks);
    assert(chunks.push(last).drop_last() =~= chunks);
}

/// A sized read brings no more than was asked for, and less only where the
/// file ended; a read to end stops at a zero-length result or at the size of a
/// regular file.
pub proof fn a_read_ends_where_it_should(
    read: ReadJobView,
    chunks: Seq<Moved>,
    last: Moved,
    result: Result<ReplyView, Error>,
)
    requires
        read.wf(),
        read.filled == 0,
        ends(JobKindView::Read(read), chunks, last, result),
    ensures
        match read.want {
            Want::Exact(len) => {
                &&& count(chunks.push(last)) <= len
                &&& count(chunks.push(last)) < len ==> last.n == 0
            },
            Want::ToEnd => last.n == 0 || (regular_size(last.stat) matches Some(size) && read.pos
                + count(chunks.push(last)) >= size),
        },
{
    lemma_read_holds(read, chunks);
    lemma_room_of_sized_read(read, chunks);
    assert(chunks.push(last).drop_last() =~= chunks);
}

/// A sized read never asks for more than its length.
proof fn lemma_room_of_sized_read(read: ReadJobView, chunks: Seq<Moved>)
    requires
        read.wf(),
        read.filled == 0,
        goes_through(JobKindView::Read(read), chunks),
    ensures
        read.want matches Want::Exact(len) ==> (after(JobKindView::Read(read), chunks) matches
            JobKindView::Read(now) && now.buf.room() == len),
    decreases chunks.len(),
{
    if chunks.len() > 0 {
        lemma_read_holds(read, chunks.drop_last());
        lemma_room_of_sized_read(read, chunks.drop_last());
    }
}

/// A read to end of a regular file takes one call where the file is as long as
/// it was said to be: a first chunk that fills the room settles it.
pub proof fn a_read_to_end_takes_one_call(read: ReadJobView, size: u64, chunk: Moved)
    requires
        read.wf(),
        read.filled == 0,
        read.want is ToEnd,
        read.pos + read.buf.room() == size,
        chunk.n == read.buf.room(),
        chunk.bytes.len() == chunk.n,
        regular_size(chunk.stat) == Some(size),
    ensures
        JobKindView::Read(read).transfer() matches Transfer::Read { offset, len, .. } && offset
            == read.pos && len == size - read.pos,
        JobKindView::Read(read).settles(chunk.n, chunk.bytes, chunk.stat) == Some(
            Ok::<ReplyView, Error>(ReplyView::Bytes(chunk.bytes)),
        ),
{
    let data = read.buf->Owned_data;
    assert(data + chunk.bytes =~= chunk.bytes);
}

/// A write settles once its whole payload is written, no byte of it twice, and
/// reports the length of the payload; one at a position reports where it ends.
pub proof fn a_write_reports_its_whole_payload(
    write: WriteJobView,
    chunks: Seq<Moved>,
    last: Moved,
    result: Result<ReplyView, Error>,
)
    requires
        write.wf(),
        write.filled == 0,
        ends(JobKindView::Write(write), chunks, last, result),
    ensures
        count(chunks.push(last)) == write.data.len(),
        result matches Ok(reply) ==> (reply matches ReplyView::Written { n, end } && n
            == write.data.len() && (!write.append ==> end == write.pos + n)),
        !write.append ==> result is Ok,
{
    lemma_write_holds(write, chunks);
    assert(chunks.push(last).drop_last() =~= chunks);
}

/// Every chunk is asked for right behind the ones before it: at the byte of
/// the file, and of the payload or the caller's memory, where they ended.
pub proof fn chunks_follow_each_other(kind: JobKindView, chunks: Seq<Moved>)
    requires
        kind.wf(),
        goes_through(kind, chunks),
        match kind {
            JobKindView::Read(read) => read.filled == 0,
            JobKindView::Write(write) => write.filled == 0,
            JobKindView::Fsync(_) => false,
        },
    ensures
        match (kind, after(kind, chunks).transfer()) {
            (JobKindView::Read(read), Transfer::Read { fd, offset, target, len }) => {
                &&& fd == read.fd
                &&& offset == read.pos + count(chunks)
                &&& match read.buf {
                    ReadBufView::Owned { .. } => target is Fresh,
                    ReadBufView::External { addr, len: all } => {
                        &&& target == Target::At((addr + count(chunks)) as usize)
                        &&& addr + count(chunks) + len == addr + all
                    },
                }
            },
            (JobKindView::Write(write), Transfer::Write { fd, offset, start, len }) => {
                &&& fd == write.fd
                &&& offset == write.pos.wrapping_add(count(chunks) as u64)
                &&& start == count(chunks)
                &&& len == write.data.len() - count(chunks)
            },
            _ => false,
        },
{
    match kind {
        JobKindView::Read(read) => lemma_read_holds(read, chunks),
        JobKindView::Write(write) => lemma_write_holds(write, chunks),
        JobKindView::Fsync(_) => {},
    }
}

/// A transfer settles after finitely many chunks: while it goes on it has gone
/// through no more chunks than it moved bytes. A sized read or a write of some
/// bytes goes through fewer chunks than that before the one that settles it, a
/// flush through none. Every chunk of a write has to move something; one of a
/// read that does not settles it.
pub proof fn a_transfer_settles_after_finitely_many_chunks(kind: JobKindView, chunks: Seq<Moved>)
    requires
        kind.wf(),
        goes_through(kind, chunks),
        match kind {
            JobKindView::Read(read) => read.filled == 0,
            JobKindView::Write(write) => write.filled == 0 && forall|i: int|
                0 <= i < chunks.len() ==> (#[trigger] chunks[i]).n > 0,
            JobKindView::Fsync(_) => true,
        },
    ensures
        chunks.len() <= count(chunks),
        chunks.len() > 0 ==> match kind {
            JobKindView::Read(read) => read.want matches Want::Exact(len) ==> chunks.len() <= count(
                chunks,
            ) < len,
            JobKindView::Write(write) => chunks.len() <= count(chunks) < write.data.len(),
            JobKindView::Fsync(_) => false,
        },
    decreases chunks.len(),
{
    if chunks.len() > 0 {
        let before = chunks.drop_last();
        match kind {
            JobKindView::Read(read) => {
                lemma_read_holds(read, before);
                a_transfer_settles_after_finitely_many_chunks(kind, before);
            },
            JobKindView::Write(write) => {
                lemma_write_holds(write, before);
                assert forall|i: int| 0 <= i < before.len() implies (#[trigger] before[i]).n > 0 by {
                    assert(before[i] == chunks[i]);
                }
                assert(chunks.last() == chunks[chunks.len() - 1]);
                a_transfer_settles_after_finitely_many_chunks(kind, before);
            },
            JobKindView::Fsync(_) => {
                a_transfer_settles_after_finitely_many_chunks(kind, before);
            },
        }
    }
}

} // verus!
