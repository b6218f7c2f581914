//! What a read gives back of a write.
//!
//! A file is a sequence of bytes here, and a kernel is true to it when a write
//! puts the bytes it was handed at their offset, and a read brings the bytes
//! that are there and nothing only where the file has ended. With such a
//! kernel a transfer moves the file's bytes exactly, in however many chunks.

use vstd::prelude::*;

use crate::error::Error;
use crate::job::{
    reported_size, JobKindView, ReadBufView, ReadJobView, Target, Transfer, Want, WriteJobView,
};
use crate::op::ReplyView;
use crate::run::{
    a_transfer_settles_after_finitely_many_chunks, after, content, count, ends, goes_through, Moved,
};

verus! {

/// `file` with `bytes` from `offset` on; a gap before them holds zeros.
pub open spec fn stored(file: Seq<u8>, offset: int, bytes: Seq<u8>) -> Seq<u8> {
    Seq::new(
        if bytes.len() == 0 || offset + bytes.len() < file.len() {
            file.len()
        } else {
            (offset + bytes.len()) as nat
        },
        |i: int|
            if offset <= i < offset + bytes.len() {
                bytes[i - offset]
            } else if i < file.len() {
                file[i]
            } else {
                0u8
            },
    )
}

/// The bytes of `file` from `pos` on, at most `len` of them.
pub open spec fn part(file: Seq<u8>, pos: int, len: int) -> Seq<u8> {
    if pos >= file.len() {
        Seq::empty()
    } else if pos + len >= file.len() {
        file.subrange(pos, file.len() as int)
    } else {
        file.subrange(pos, pos + len)
    }
}

/// The chunk brings the bytes of `file` that the read asks for next, and none
/// only where the file has ended.
pub open spec fn true_to(file: Seq<u8>, read: ReadJobView, chunk: Moved) -> bool {
    let offset = read.pos + read.filled;
    &&& chunk.n > 0 ==> offset + chunk.n <= file.len() && chunk.bytes == file.subrange(
        offset,
        offset + chunk.n,
    )
    &&& chunk.n == 0 ==> offset >= file.len() || read.buf.room() == read.filled
    &&& chunk.bytes.len() == chunk.n
    &&& chunk.stat matches Ok(stat) ==> stat.regular ==> stat.size == file.len()
}

/// All of the chunks are true to `file`.
pub open spec fn all_true_to(file: Seq<u8>, kind: JobKindView, chunks: Seq<Moved>) -> bool
    decreases chunks.len(),
{
    chunks.len() == 0 || {
        &&& all_true_to(file, kind, chunks.drop_last())
        &&& after(kind, chunks.drop_last()) matches JobKindView::Read(read) && true_to(
            file,
            read,
            chunks.last(),
        )
    }
}

/// What a read holds is what the file holds there.
proof fn lemma_read_is_true(file: Seq<u8>, read: ReadJobView, chunks: Seq<Moved>)
    requires
        read.wf(),
        read.filled == 0,
        goes_through(JobKindView::Read(read), chunks),
        all_true_to(file, JobKindView::Read(read), chunks),
    ensures
        count(chunks) > 0 ==> read.pos + count(chunks) <= file.len() && content(chunks)
            == file.subrange(read.pos as int, read.pos + count(chunks)),
        count(chunks) == 0 ==> content(chunks).len() == 0,
        after(JobKindView::Read(read), chunks) matches JobKindView::Read(now) && {
            &&& now.wf()
            &&& now.filled == count(chunks)
            &&& now.pos == read.pos
            &&& now.want == read.want
            &&& match read.buf {
                ReadBufView::Owned { .. } => now.buf matches ReadBufView::Owned { data, .. } && data
                    == content(chunks),
                ReadBufView::External { .. } => now.buf == read.buf,
            }
            &&& read.want matches Want::Exact(len) ==> now.buf.room() == len
            &&& read.want is ToEnd && read.buf.room() >= 1 && count(chunks) < usize::MAX
                ==> now.buf.room() > now.filled
        },
    decreases chunks.len(),
{
    if chunks.len() == 0 {
        if read.buf is Owned {
            assert(read.buf->Owned_data =~= content(chunks));
        }
    } else {
        let before = chunks.drop_last();
        lemma_read_is_true(file, read, before);
        let last = chunks.last();
        let a = read.pos + count(before);
        if last.n > 0 {
            if count(before) == 0 {
                assert(content(before) =~= Seq::<u8>::empty());
                assert(content(chunks) =~= last.bytes);
            } else {
                assert(content(chunks) =~= file.subrange(read.pos as int, a + last.n));
            }
        }
    }
}

/// A sized read of a file gives the bytes that are there, all that were asked
/// for unless the file ends before.
pub proof fn a_sized_read_gives_the_part_of_the_file(
    file: Seq<u8>,
    read: ReadJobView,
    chunks: Seq<Moved>,
    last: Moved,
    result: Result<ReplyView, Error>,
    len: usize,
)
    requires
        read.wf(),
        read.filled == 0,
        read.buf is Owned,
        read.want == Want::Exact(len),
        ends(JobKindView::Read(read), chunks, last, result),
        all_true_to(file, JobKindView::Read(read), chunks.push(last)),
    ensures
        result == Ok::<ReplyView, Error>(ReplyView::Bytes(part(file, read.pos as int, len as int))),
{
    assert(chunks.push(last).drop_last() =~= chunks);
    lemma_read_is_true(file, read, chunks);
    let got = content(chunks) + last.bytes;
    if last.n == 0 {
        assert(got =~= content(chunks));
    } else if count(chunks) == 0 {
        assert(content(chunks) =~= Seq::<u8>::empty());
        assert(got =~= last.bytes);
    } else {
        assert(got =~= file.subrange(read.pos as int, read.pos + count(chunks) + last.n));
    }
    assert(got =~= part(file, read.pos as int, len as int));
}

/// A sized read into the caller's memory brings the bytes that are there, all
/// that were asked for unless the file ends before, and replies their count.
pub proof fn a_sized_read_into_memory_gives_the_part_of_the_file(
    file: Seq<u8>,
    read: ReadJobView,
    chunks: Seq<Moved>,
    last: Moved,
    result: Result<ReplyView, Error>,
    len: usize,
)
    requires
        read.wf(),
        read.filled == 0,
        read.buf is External,
        read.want == Want::Exact(len),
        ends(JobKindView::Read(read), chunks, last, result),
        all_true_to(file, JobKindView::Read(read), chunks.push(last)),
    ensures
        content(chunks.push(last)) == part(file, read.pos as int, len as int),
        result == Ok::<ReplyView, Error>(
            ReplyView::Read { n: part(file, read.pos as int, len as int).len() as usize },
        ),
{
    assert(chunks.push(last).drop_last() =~= chunks);
    lemma_read_is_true(file, read, chunks);
    let got = content(chunks) + last.bytes;
    if last.n == 0 {
        assert(got =~= content(chunks));
    } else if count(chunks) == 0 {
        assert(content(chunks) =~= Seq::<u8>::empty());
        assert(got =~= last.bytes);
    } else {
        assert(got =~= file.subrange(read.pos as int, read.pos + count(chunks) + last.n));
    }
    assert(got =~= part(file, read.pos as int, len as int));
}

/// The caller's memory after the chunks of a read, each of them putting the
/// bytes that it brought where its call was told to.
pub open spec fn memory_after(memory: Seq<u8>, read: ReadJobView, chunks: Seq<Moved>) -> Seq<u8>
    decreases chunks.len(),
{
    if chunks.len() == 0 {
        memory
    } else {
        let before = memory_after(memory, read, chunks.drop_last());
        let call = after(JobKindView::Read(read), chunks.drop_last()).transfer();
        match (read.buf, call) {
            (
                ReadBufView::External { addr, .. },
                Transfer::Read { target: Target::At(to), .. },
            ) => stored(before, to - addr, chunks.last().bytes),
            _ => before,
        }
    }
}

/// The chunks of a read lie in the caller's memory one behind the other.
proof fn lemma_memory_is_filled(
    file: Seq<u8>,
    memory: Seq<u8>,
    read: ReadJobView,
    chunks: Seq<Moved>,
)
    requires
        read.wf(),
        read.filled == 0,
        read.buf is External,
        goes_through(JobKindView::Read(read), chunks),
        all_true_to(file, JobKindView::Read(read), chunks),
    ensures
        content(chunks).len() == count(chunks),
        memory_after(memory, read, chunks) == stored(memory, 0, content(chunks)),
    decreases chunks.len(),
{
    if chunks.len() == 0 {
        assert(memory_after(memory, read, chunks) =~= stored(memory, 0, content(chunks)));
    } else {
        let before = chunks.drop_last();
        lemma_memory_is_filled(file, memory, read, before);
        lemma_read_is_true(file, read, before);
        lemma_stored_behind(memory, content(before), chunks.last().bytes);
    }
}

/// Storing bytes and then more behind them stores both.
proof fn lemma_stored_behind(memory: Seq<u8>, first: Seq<u8>, second: Seq<u8>)
    ensures
        stored(stored(memory, 0, first), first.len() as int, second) == stored(
            memory,
            0,
            first + second,
        ),
{
    let data = first + second;
    lemma_stored_twice(memory, 0, data, first.len() as int, data.len() as int);
    assert(data.subrange(0, first.len() as int) =~= first);
    assert(data.subrange(first.len() as int, data.len() as int) =~= second);
    assert(data.subrange(0, data.len() as int) =~= data);
}

/// A sized read into the caller's memory leaves the bytes of the file there,
/// from the start of the memory on, and the rest of it as it was.
pub proof fn a_sized_read_fills_the_memory_from_its_start(
    file: Seq<u8>,
    memory: Seq<u8>,
    read: ReadJobView,
    chunks: Seq<Moved>,
    last: Moved,
    result: Result<ReplyView, Error>,
    len: usize,
)
    requires
        read.wf(),
        read.filled == 0,
        read.buf is External,
        read.want == Want::Exact(len),
        ends(JobKindView::Read(read), chunks, last, result),
        all_true_to(file, JobKindView::Read(read), chunks.push(last)),
    ensures
        memory_after(memory, read, chunks.push(last)) == stored(
            memory,
            0,
            part(file, read.pos as int, len as int),
        ),
{
    a_sized_read_into_memory_gives_the_part_of_the_file(file, read, chunks, last, result, len);
    assert(chunks.push(last).drop_last() =~= chunks);
    lemma_memory_is_filled(file, memory, read, chunks);
    lemma_read_is_true(file, read, chunks);
    lemma_stored_behind(memory, content(chunks), last.bytes);
}

/// A read to end of a file gives all that is there from its position on.
pub proof fn a_read_to_end_gives_the_rest_of_the_file(
    file: Seq<u8>,
    read: ReadJobView,
    chunks: Seq<Moved>,
    last: Moved,
    result: Result<ReplyView, Error>,
)
    requires
        file.len() < usize::MAX,
        read.wf(),
        read.filled == 0,
        read.buf is Owned,
        read.buf.room() >= 1,
        read.want == Want::ToEnd,
        ends(JobKindView::Read(read), chunks, last, result),
        all_true_to(file, JobKindView::Read(read), chunks.push(last)),
    ensures
        result == Ok::<ReplyView, Error>(
            ReplyView::Bytes(part(file, read.pos as int, file.len() as int)),
        ),
{
    assert(chunks.push(last).drop_last() =~= chunks);
    lemma_read_is_true(file, read, chunks);
    let got = content(chunks) + last.bytes;
    if last.n == 0 {
        assert(got =~= content(chunks));
    } else if count(chunks) == 0 {
        assert(content(chunks) =~= Seq::<u8>::empty());
        assert(got =~= last.bytes);
    } else {
        assert(got =~= file.subrange(read.pos as int, read.pos + count(chunks) + last.n));
    }
    assert(got =~= part(file, read.pos as int, file.len() as int));
}

/// The file after the chunks of a write, each of them storing the bytes that
/// it moved at the offset it was made for.
pub open spec fn file_after(file: Seq<u8>, write: WriteJobView, chunks: Seq<Moved>) -> Seq<u8>
    decreases chunks.len(),
{
    if chunks.len() == 0 {
        file
    } else {
        let before = count(chunks.drop_last());
        stored(
            file_after(file, write, chunks.drop_last()),
            write.pos + before,
            write.data.subrange(before as int, before + chunks.last().n),
        )
    }
}

/// A write in chunks has stored as much of the payload as it has moved.
proof fn lemma_write_is_true(file: Seq<u8>, write: WriteJobView, chunks: Seq<Moved>)
    requires
        write.wf(),
        write.filled == 0,
        goes_through(JobKindView::Write(write), chunks),
    ensures
        count(chunks) <= write.data.len(),
        after(JobKindView::Write(write), chunks) == JobKindView::Write(
            WriteJobView { filled: count(chunks) as usize, ..write },
        ),
        file_after(file, write, chunks) == stored(
            file,
            write.pos as int,
            write.data.subrange(0, count(chunks) as int),
        ),
    decreases chunks.len(),
{
    if chunks.len() == 0 {
        assert(file_after(file, write, chunks) =~= stored(
            file,
            write.pos as int,
            write.data.subrange(0, 0),
        ));
    } else {
        lemma_write_is_true(file, write, chunks.drop_last());
        lemma_stored_twice(
            file,
            write.pos as int,
            write.data,
            count(chunks.drop_last()) as int,
            count(chunks) as int,
        );
    }
}

/// Storing the first bytes and then the next ones stores both.
proof fn lemma_stored_twice(file: Seq<u8>, pos: int, data: Seq<u8>, a: int, b: int)
    requires
        pos >= 0,
        0 <= a <= b <= data.len(),
    ensures
        stored(stored(file, pos, data.subrange(0, a)), pos + a, data.subrange(a, b)) == stored(
            file,
            pos,
            data.subrange(0, b),
        ),
{
    let one = stored(file, pos, data.subrange(0, a));
    let two = stored(one, pos + a, data.subrange(a, b));
    let both = stored(file, pos, data.subrange(0, b));
    assert(two.len() == both.len());
    assert(two =~= both);
}

/// A write at a position leaves its payload there and the rest of the file as
/// it was, in however many chunks the kernel took it.
pub proof fn a_write_stores_its_payload(
    file: Seq<u8>,
    write: WriteJobView,
    chunks: Seq<Moved>,
    last: Moved,
    result: Result<ReplyView, Error>,
)
    requires
        write.wf(),
        write.filled == 0,
        !write.append,
        ends(JobKindView::Write(write), chunks, last, result),
    ensures
        file_after(file, write, chunks.push(last)) == stored(file, write.pos as int, write.data),
        result == Ok::<ReplyView, Error>(
            ReplyView::Written {
                n: write.data.len() as usize,
                end: (write.pos + write.data.len()) as u64,
            },
        ),
{
    assert(chunks.push(last).drop_last() =~= chunks);
    lemma_write_is_true(file, write, chunks);
    lemma_stored_twice(
        file,
        write.pos as int,
        write.data,
        count(chunks) as int,
        count(chunks) + last.n,
    );
    assert(write.data.subrange(0, write.data.len() as int) =~= write.data);
}

/// A read gives back what a write wrote: after a write has settled, a read of
/// as many bytes at the same position replies its payload.
pub proof fn a_read_gives_back_what_a_write_wrote(
    file: Seq<u8>,
    write: WriteJobView,
    written: Seq<Moved>,
    last_written: Moved,
    receipt: Result<ReplyView, Error>,
    read: ReadJobView,
    chunks: Seq<Moved>,
    last: Moved,
    result: Result<ReplyView, Error>,
)
    requires
        write.wf(),
        write.filled == 0,
        !write.append,
        ends(JobKindView::Write(write), written, last_written, receipt),
        read.wf(),
        read.filled == 0,
        read.buf is Owned,
        read.pos == write.pos,
        read.want == Want::Exact(write.data.len() as usize),
        ends(JobKindView::Read(read), chunks, last, result),
        all_true_to(
            file_after(file, write, written.push(last_written)),
            JobKindView::Read(read),
            chunks.push(last),
        ),
    ensures
        result == Ok::<ReplyView, Error>(ReplyView::Bytes(write.data)),
{
    a_write_stores_its_payload(file, write, written, last_written, receipt);
    let now = file_after(file, write, written.push(last_written));
    a_sized_read_gives_the_part_of_the_file(
        now,
        read,
        chunks,
        last,
        result,
        write.data.len() as usize,
    );
    assert(part(now, write.pos as int, write.data.len() as int) =~= write.data);
}

/// A read into the caller's memory gives back what a write wrote: after a write
/// has settled, a read of as many bytes at the same position replies their
/// count and leaves the payload in the memory.
pub proof fn a_read_into_memory_gives_back_what_a_write_wrote(
    file: Seq<u8>,
    memory: Seq<u8>,
    write: WriteJobView,
    written: Seq<Moved>,
    last_written: Moved,
    receipt: Result<ReplyView, Error>,
    read: ReadJobView,
    chunks: Seq<Moved>,
    last: Moved,
    result: Result<ReplyView, Error>,
)
    requires
        write.wf(),
        write.filled == 0,
        !write.append,
        ends(JobKindView::Write(write), written, last_written, receipt),
        read.wf(),
        read.filled == 0,
        read.buf is External,
        read.pos == write.pos,
        read.want == Want::Exact(write.data.len() as usize),
        memory.len() == write.data.len(),
        ends(JobKindView::Read(read), chunks, last, result),
        all_true_to(
            file_after(file, write, written.push(last_written)),
            JobKindView::Read(read),
            chunks.push(last),
        ),
    ensures
        result == Ok::<ReplyView, Error>(ReplyView::Read { n: write.data.len() as usize }),
        memory_after(memory, read, chunks.push(last)) == write.data,
{
    a_write_stores_its_payload(file, write, written, last_written, receipt);
    let now = file_after(file, write, written.push(last_written));
    let len = write.data.len() as usize;
    a_sized_read_into_memory_gives_the_part_of_the_file(now, read, chunks, last, result, len);
    a_sized_read_fills_the_memory_from_its_start(now, memory, read, chunks, last, result, len);
    assert(part(now, write.pos as int, write.data.len() as int) =~= write.data);
    assert(stored(memory, 0, write.data) =~= write.data);
}

/// A read to end of a file settles after finitely many chunks: it goes through
/// no more of them than the file has bytes from its position on.
pub proof fn a_read_to_end_settles_after_finitely_many_chunks(
    file: Seq<u8>,
    read: ReadJobView,
    chunks: Seq<Moved>,
)
    requires
        read.wf(),
        read.filled == 0,
        read.want == Want::ToEnd,
        goes_through(JobKindView::Read(read), chunks),
        all_true_to(file, JobKindView::Read(read), chunks),
    ensures
        chunks.len() <= part(file, read.pos as int, file.len() as int).len(),
{
    lemma_read_is_true(file, read, chunks);
    a_transfer_settles_after_finitely_many_chunks(JobKindView::Read(read), chunks);
}

/// A whole-file read gives back what a whole-file write wrote: the write goes
/// to an empty file, and the read is to its end.
pub proof fn a_whole_file_read_gives_back_a_whole_file_write(
    write: WriteJobView,
    written: Seq<Moved>,
    last_written: Moved,
    receipt: Result<ReplyView, Error>,
    read: ReadJobView,
    chunks: Seq<Moved>,
    last: Moved,
    result: Result<ReplyView, Error>,
)
    requires
        write.wf(),
        write.filled == 0,
        write.pos == 0,
        !write.append,
        write.data.len() < usize::MAX,
        ends(JobKindView::Write(write), written, last_written, receipt),
        read.wf(),
        read.filled == 0,
        read.buf is Owned,
        read.buf.room() >= 1,
        read.pos == 0,
        read.want == Want::ToEnd,
        ends(JobKindView::Read(read), chunks, last, result),
        all_true_to(
            file_after(Seq::empty(), write, written.push(last_written)),
            JobKindView::Read(read),
            chunks.push(last),
        ),
    ensures
        result == Ok::<ReplyView, Error>(ReplyView::Bytes(write.data)),
{
    a_write_stores_its_payload(Seq::empty(), write, written, last_written, receipt);
    let now = file_after(Seq::empty(), write, written.push(last_written));
    assert(now =~= write.data);
    a_read_to_end_gives_the_rest_of_the_file(now, read, chunks, last, result);
    assert(part(now, 0, now.len() as int) =~= write.data);
}

/// The end that an append reports is the size of the file as it was asked for
/// after the last byte was written.
pub proof fn an_append_reports_the_end_of_the_file(
    write: WriteJobView,
    chunks: Seq<Moved>,
    last: Moved,
    result: Result<ReplyView, Error>,
)
    requires
        write.wf(),
        write.filled == 0,
        write.append,
        ends(JobKindView::Write(write), chunks, last, result),
    ensures
        result == (match reported_size(last.stat) {
            Ok(end) => Ok(ReplyView::Written { n: write.data.len() as usize, end }),
            Err(e) => Err(e),
        }),
{
    lemma_write_is_true(Seq::empty(), write, chunks);
}

} // verus!
