//! What a settled operation gives to the one who awaits it.

use vstd::prelude::*;

use crate::error::{cancelled_spec, is_cancelled, Error};
use crate::host::Errno;
use crate::group::{
    a_read_in_pieces_counts_what_the_file_holds, after_all, finished, is_piece, piece_count,
    starts_fit, DonePiece, ReadGroup,
};
use crate::op::{Dest, Op, Reply, ReplyView};
use crate::round_trip::part;
use crate::task_run::{
    a_read_to_end_task_gives_the_rest_of_the_file, a_sized_read_task_gives_the_part_of_the_file,
    a_whole_file_read_task_gives_the_file, a_whole_file_write_task_leaves_its_payload_alone,
    a_write_task_stores_its_payload, an_append_task_puts_its_payload_at_the_end, TaskRun,
};

verus! {

/// What the awaiting side holds ready for the result.
#[derive(Debug, Clone, Copy, PartialEq, Eq, Structural)]
pub enum Output {
    Plain,
    /// A bytes object of `len` bytes that the operation filled.
    FillBytes { len: usize },
    /// A buffer of the caller's that the operation filled.
    ReadInto,
}

/// The value that an operation resolves to.
#[derive(Debug, PartialEq, Eq)]
pub enum Value {
    /// The bytes object that was filled, all of it.
    Whole,
    /// The first bytes of it.
    Prefix(usize),
    /// A count.
    Count(usize),
    Bytes(Vec<u8>),
    Handle { id: u64, size: u64, fd: i64 },
    Written { n: usize, end: u64 },
    Size(u64),
    Nothing,
}

/// [`Value`] with the bytes as a sequence.
pub enum ValueView {
    Whole,
    Prefix(usize),
    Count(usize),
    Bytes(Seq<u8>),
    Handle { id: u64, size: u64, fd: i64 },
    Written { n: usize, end: u64 },
    Size(u64),
    Nothing,
}

impl View for Value {
    type V = ValueView;

    open spec fn view(&self) -> ValueView {
        match self {
            Value::Whole => ValueView::Whole,
            Value::Prefix(n) => ValueView::Prefix(*n),
            Value::Count(n) => ValueView::Count(*n),
            Value::Bytes(data) => ValueView::Bytes(data@),
            Value::Handle { id, size, fd } => ValueView::Handle { id: *id, size: *size, fd: *fd },
            Value::Written { n, end } => ValueView::Written { n: *n, end: *end },
            Value::Size(size) => ValueView::Size(*size),
            Value::Nothing => ValueView::Nothing,
        }
    }
}

/// The value for a reply, or `None` when the reply is none that the awaiting
/// side can take: a count with nothing that was filled.
pub open spec fn value_of(output: Output, reply: ReplyView) -> Option<ValueView> {
    match reply {
        ReplyView::Read { n } => match output {
            Output::FillBytes { len } => Some(
                if n == len {
                    ValueView::Whole
                } else {
                    ValueView::Prefix(n)
                },
            ),
            Output::ReadInto => Some(ValueView::Count(n)),
            Output::Plain => None,
        },
        ReplyView::Bytes(data) => Some(ValueView::Bytes(data)),
        ReplyView::Handle { id, size, fd } => Some(ValueView::Handle { id, size, fd }),
        ReplyView::Written { n, end } => Some(ValueView::Written { n, end }),
        ReplyView::Size(size) => Some(ValueView::Size(size)),
        ReplyView::Unit => Some(ValueView::Nothing),
    }
}

/// The value for a reply. A reply that does not fit comes back.
pub fn build_value(output: Output, reply: Reply) -> (value: Result<Value, Reply>)
    requires
        output matches Output::FillBytes { len } ==> (reply matches Reply::Read { n } ==> n <= len),
    ensures
        match value_of(output, reply@) {
            Some(v) => value matches Ok(got) && got@ == v,
            None => value == Err::<Value, Reply>(reply),
        },
        // A prefix is one of the bytes that there are.
        value matches Ok(Value::Prefix(n)) ==> (output matches Output::FillBytes { len } && n < len),
{
    match reply {
        Reply::Read { n } => match output {
            Output::FillBytes { len } => if n == len {
                Ok(Value::Whole)
            } else {
                Ok(Value::Prefix(n))
            },
            Output::ReadInto => Ok(Value::Count(n)),
            Output::Plain => Err(Reply::Read { n }),
        },
        Reply::Bytes(data) => Ok(Value::Bytes(data)),
        Reply::Handle { id, size, fd } => Ok(Value::Handle { id, size, fd }),
        Reply::Written { n, end } => Ok(Value::Written { n, end }),
        Reply::Size(size) => Ok(Value::Size(size)),
        Reply::Unit => Ok(Value::Nothing),
    }
}

/// The bytes that a value amounts to, if it is bytes: its own, or those of the
/// bytes object `filled` that it stands for.
pub open spec fn bytes_of(value: ValueView, filled: Seq<u8>) -> Option<Seq<u8>> {
    match value {
        ValueView::Whole => Some(filled),
        ValueView::Prefix(n) => Some(filled.take(n as int)),
        ValueView::Bytes(data) => Some(data),
        _ => None,
    }
}

/// A reply that holds bytes resolves to those bytes, all of them and no others,
/// whatever was held ready.
pub proof fn a_reply_of_bytes_resolves_to_them(output: Output, data: Seq<u8>, filled: Seq<u8>)
    ensures
        value_of(output, ReplyView::Bytes(data)) matches Some(value) && bytes_of(value, filled)
            == Some(data),
{
}

/// A reply that counts the bytes that were read resolves to the first so many
/// of the bytes object that was filled, or to the count itself where the
/// caller's own buffer was. With nothing to fill there is nothing to resolve
/// to.
pub proof fn a_count_resolves_to_what_was_filled(output: Output, n: usize, filled: Seq<u8>)
    requires
        output matches Output::FillBytes { len } ==> n <= len && filled.len() == len,
    ensures
        match (output, value_of(output, ReplyView::Read { n })) {
            (Output::Plain, value) => value is None,
            (Output::FillBytes { .. }, Some(value)) => bytes_of(value, filled) == Some(
                filled.take(n as int),
            ),
            (Output::ReadInto, Some(value)) => value == ValueView::Count(n),
            _ => false,
        },
{
    if output is FillBytes && n == filled.len() {
        assert(filled.take(n as int) =~= filled);
    }
}

/// The numbers of a reply are the numbers of its value, each in its place,
/// whatever was held ready; and a reply that tells nothing resolves to nothing.
pub proof fn the_numbers_of_a_reply_are_those_of_its_value(output: Output, reply: ReplyView)
    requires
        !(reply is Bytes),
        !(reply is Read),
    ensures
        match (reply, value_of(output, reply)) {
            (ReplyView::Handle { id, size, fd }, Some(value)) => value matches ValueView::Handle {
                id: i,
                size: s,
                fd: f,
            } && i == id && s == size && f == fd,
            (ReplyView::Written { n, end }, Some(value)) => value matches ValueView::Written {
                n: m,
                end: e,
            } && m == n && e == end,
            (ReplyView::Size(size), Some(value)) => value matches ValueView::Size(s) && s == size,
            (ReplyView::Unit, Some(value)) => value is Nothing,
            _ => false,
        },
{
}

/// No value hides its reply: two replies that resolve to the same value are the
/// same reply.
pub proof fn a_value_tells_its_reply(output: Output, a: ReplyView, b: ReplyView)
    requires
        value_of(output, a) is Some,
        value_of(output, a) == value_of(output, b),
    ensures
        a == b,
{
}

/// A read in pieces resolves to what the file holds of its range, whatever the
/// size of a piece and whatever order they finish in, given that the bytes
/// object holds those bytes from its start on.
pub proof fn a_read_in_pieces_resolves_to_the_part_of_the_file(
    file: Seq<u8>,
    filled: Seq<u8>,
    pos: u64,
    chunk: usize,
    done: Seq<DonePiece>,
)
    requires
        chunk > 0,
        0 < filled.len() <= usize::MAX,
        starts_fit(pos, filled.len() as usize, chunk),
        1 <= done.len() <= usize::MAX,
        forall|k: int|
            0 <= k < done.len() ==> is_piece(
                #[trigger] done[k],
                file.len() as int,
                pos,
                filled.len() as usize,
                chunk,
            ),
        forall|i: int|
            0 <= i < piece_count(filled.len() as int, chunk as int) ==> #[trigger] finished(
                done,
                file.len() as int,
                pos,
                filled.len() as usize,
                chunk,
                i,
            ),
        ({
            let there = part(file, pos as int, filled.len() as int);
            filled.take(there.len() as int) == there
        }),
    ensures
        ({
            let len = filled.len() as usize;
            let end = after_all(ReadGroup::fresh(done.len() as usize, len), done).result();
            end matches Ok(reply) && value_of(Output::FillBytes { len }, reply) matches Some(value)
                && bytes_of(value, filled) == Some(part(file, pos as int, filled.len() as int))
        }),
{
    let len = filled.len() as usize;
    a_read_in_pieces_counts_what_the_file_holds(file.len() as int, pos, len, chunk, done);
    let end = after_all(ReadGroup::fresh(done.len() as usize, len), done).result();
    if let Ok(ReplyView::Read { n }) = end {
        a_count_resolves_to_what_was_filled(Output::FillBytes { len }, n, filled);
        assert(n == part(file, pos as int, filled.len() as int).len());
    }
}

/// A whole-file read of a file of at most `inline_max` bytes, and a read to
/// end, resolve to what the file holds; a sized read into an allocation of its
/// own resolves to its part of it, and one into a bytes object to what the
/// system put there. Whatever was held ready, the bytes are those of the file.
pub proof fn a_read_resolves_to_what_the_file_holds<'a>(
    run: TaskRun<'a>,
    op: Op<'a>,
    fd: i32,
    errno: Errno,
    reply: ReplyView,
    output: Output,
    filled: Seq<u8>,
)
    requires
        op.wf(),
        run.runs(op, None, fd, errno),
        run.on_a_file(),
        run.settled(Ok(reply)),
        match op {
            Op::ReadFile { inline_max, .. } => run.files[0].len() <= inline_max,
            Op::ReadToEnd { .. } => true,
            Op::ReadAt { dest: Dest::Alloc { .. }, .. } => true,
            Op::ReadAt { pos, dest: Dest::Into { len, .. }, .. } => {
                let there = part(run.files[0], pos as int, len as int);
                &&& output == (Output::FillBytes { len })
                &&& filled.len() == len
                &&& filled.take(there.len() as int) == there
            },
            _ => false,
        },
    ensures
        value_of(output, reply) matches Some(value) && bytes_of(value, filled) == Some(
            match op {
                Op::ReadToEnd { pos, .. } => part(
                    run.files[0],
                    pos as int,
                    run.files[0].len() as int,
                ),
                Op::ReadAt { pos, dest, .. } => part(run.files[0], pos as int, dest.len() as int),
                _ => run.files[0],
            },
        ),
{
    match op {
        Op::ReadFile { path, inline_max } => {
            a_whole_file_read_task_gives_the_file(run, path, inline_max, fd, errno);
            a_reply_of_bytes_resolves_to_them(output, run.files[0], filled);
        },
        Op::ReadToEnd { handle, pos } => {
            a_read_to_end_task_gives_the_rest_of_the_file(run, handle, pos, None, fd, errno, reply);
        },
        Op::ReadAt { handle, pos, dest } => {
            let there = part(run.files[0], pos as int, dest.len() as int);
            a_sized_read_task_gives_the_part_of_the_file(
                run,
                handle,
                pos,
                dest,
                None,
                fd,
                errno,
                filled,
                reply,
            );
            if dest is Into {
                a_count_resolves_to_what_was_filled(output, there.len() as usize, filled);
            }
        },
        _ => {},
    }
}

/// A write resolves to the length of its payload and to where that ends in the
/// file; a whole-file write ends at its length.
pub proof fn a_write_resolves_to_its_length_and_its_end<'a>(
    run: TaskRun<'a>,
    op: Op<'a>,
    fd: i32,
    errno: Errno,
    reply: ReplyView,
    output: Output,
)
    requires
        op is WriteAt || op is WriteFile,
        run.runs(op, None, fd, errno),
        run.on_a_file(),
        run.settled(Ok(reply)),
    ensures
        value_of(output, reply) matches Some(ValueView::Written { n, end }) && match op {
            Op::WriteAt { pos, data, append: false, .. } => n == data@.len() && end == pos
                + data@.len(),
            Op::WriteAt { data, append: true, .. } => n == data@.len() && end
                == run.files.last().len(),
            Op::WriteFile { data, .. } => n == data@.len() && end == data@.len(),
            _ => false,
        },
{
    match op {
        Op::WriteFile { path, data } => {
            a_whole_file_write_task_leaves_its_payload_alone(run, path, data, fd, errno, reply);
        },
        Op::WriteAt { handle, pos, data, append } => {
            if append {
                an_append_task_puts_its_payload_at_the_end(
                    run,
                    handle,
                    pos,
                    data,
                    None,
                    fd,
                    errno,
                    reply,
                );
            } else {
                a_write_task_stores_its_payload(run, handle, pos, data, None, fd, errno, reply);
            }
        },
        _ => {},
    }
}

/// What a settled operation does to its future, `done` telling whether that is
/// done already.
pub open spec fn delivers(
    done: bool,
    result: Result<Reply, Error>,
    output: Output,
    errno: Errno,
    what: Delivery,
) -> bool {
    if done {
        what is Leave
    } else {
        match result {
            Err(e) => if e == cancelled_spec(errno) {
                what is Cancel
            } else {
                what == Delivery::Raise(e)
            },
            Ok(reply) => match value_of(output, reply@) {
                Some(v) => what matches Delivery::Resolve(got) && got@ == v,
                None => what == Delivery::Mismatch(reply),
            },
        }
    }
}

/// A future that is done is left alone, and only such a one: any other is
/// cancelled by the error of a won cancel request and by nothing else, raises
/// any other error as it is, and for a reply resolves to a value that carries
/// the reply, or is told of a reply that has no value.
pub proof fn a_future_is_told_how_its_operation_settled(
    done: bool,
    result: Result<Reply, Error>,
    output: Output,
    errno: Errno,
    what: Delivery,
    filled: Seq<u8>,
)
    requires
        delivers(done, result, output, errno, what),
    ensures
        what is Leave <==> done,
        what is Cancel <==> !done && result == Err::<Reply, Error>(Error::Os(errno.cancelled)),
        what matches Delivery::Raise(e) ==> result == Err::<Reply, Error>(e),
        result matches Err(e) ==> !(what is Resolve) && !(what is Mismatch),
        what matches Delivery::Resolve(value) ==> (result matches Ok(reply) && match reply {
            Reply::Bytes(data) => bytes_of(value@, filled) == Some(data@),
            Reply::Handle { id, size, fd } => value == (Value::Handle { id, size, fd }),
            Reply::Written { n, end } => value == (Value::Written { n, end }),
            Reply::Size(size) => value == Value::Size(size),
            Reply::Read { .. } => !(output is Plain),
            Reply::Unit => value is Nothing,
        }),
        what matches Delivery::Mismatch(reply) ==> result == Ok::<Reply, Error>(reply) && (reply
            is Read) && (output is Plain),
{
    if let Delivery::Resolve(value) = what {
        if let Ok(Reply::Bytes(data)) = result {
            a_reply_of_bytes_resolves_to_them(output, data@, filled);
        }
    }
}

/// What to do with a future.
#[derive(Debug, PartialEq, Eq)]
pub enum Delivery {
    /// Leave it alone: it is done already.
    Leave,
    Cancel,
    Raise(Error),
    Resolve(Value),
    /// Raise for a reply that the awaiting side cannot take.
    Mismatch(Reply),
}

/// Whether a future counts as done, from its own answer.
pub open spec fn counts_as_done(answer: Option<bool>) -> bool {
    answer != Some(false)
}

/// A future is told its result only if it says that it is not done: one that
/// does not answer is left alone.
pub proof fn only_a_future_that_is_not_done_is_told(answer: Option<bool>)
    ensures
        counts_as_done(answer) <==> answer is None || answer->0,
{
}

/// Whether a future counts as done, from its own answer: one that does not
/// answer is left alone.
pub fn is_done(answer: Option<bool>) -> (done: bool)
    ensures
        done == (answer != Some(false)),
        done == counts_as_done(answer),
{
    match answer {
        Some(done) => done,
        None => true,
    }
}

/// What a settled operation does to its future. A cancel request that won
/// becomes a real cancellation.
pub fn deliver(done: bool, result: Result<Reply, Error>, output: Output, errno: &Errno) -> (what:
    Delivery)
    requires
        output matches Output::FillBytes { len } ==> (result matches Ok(Reply::Read { n }) ==> n
            <= len),
    ensures
        if done {
            what is Leave
        } else {
            match result {
                Err(e) => if e == cancelled_spec(*errno) {
                    what is Cancel
                } else {
                    what == Delivery::Raise(e)
                },
                Ok(reply) => match value_of(output, reply@) {
                    Some(v) => what matches Delivery::Resolve(got) && got@ == v,
                    None => what == Delivery::Mismatch(reply),
                },
            }
        },
        delivers(done, result, output, *errno, what),
{
    if done {
        return Delivery::Leave;
    }
    match result {
        Err(e) => if is_cancelled(&e, errno) {
            Delivery::Cancel
        } else {
            Delivery::Raise(e)
        },
        Ok(reply) => match build_value(output, reply) {
            Ok(value) => Delivery::Resolve(value),
            Err(reply) => Delivery::Mismatch(reply),
        },
    }
}

/// The error code that an error carries, if it came from the system.
pub fn os_code(e: &Error) -> (code: Option<i32>)
    ensures
        code == (match *e {
            Error::Os(c) => Some(c),
            Error::Custom { .. } => None,
        }),
{
    match e {
        Error::Os(code) => Some(*code),
        Error::Custom { .. } => None,
    }
}

/// Why a buffer cannot be filled.
pub open spec fn not_writable() -> &'static str {
    "readinto needs a writable buffer"
}

/// Why a buffer cannot be used at all.
pub open spec fn not_contiguous() -> &'static str {
    "buffer must be C-contiguous"
}

/// Why a buffer is refused, if it is.
pub open spec fn refused(to_fill: bool, readonly: bool, contiguous: bool) -> Option<&'static str> {
    if to_fill && readonly {
        Some(not_writable())
    } else if !contiguous {
        Some(not_contiguous())
    } else {
        None
    }
}

/// A buffer is taken exactly when it lies in one piece and, if it is to be
/// filled, can be written; a buffer that fails both is told that it cannot be
/// written.
pub proof fn a_buffer_is_taken_if_it_can_be_used(to_fill: bool, readonly: bool, contiguous: bool)
    ensures
        refused(to_fill, readonly, contiguous) is None <==> contiguous && !(to_fill && readonly),
        to_fill && readonly ==> refused(to_fill, readonly, contiguous)
            == Some("readinto needs a writable buffer"),
        !(to_fill && readonly) && !contiguous ==> refused(to_fill, readonly, contiguous) == Some(
            "buffer must be C-contiguous",
        ),
{
}

/// Whether a buffer can be handed to the kernel: it lies in one piece, and
/// where it is to be filled it is writable, which is looked at first.
pub fn check_buffer(to_fill: bool, readonly: bool, contiguous: bool) -> (ok: Result<
    (),
    &'static str,
>)
    ensures
        ok == (if to_fill && readonly {
            Err(not_writable())
        } else if !contiguous {
            Err(not_contiguous())
        } else {
            Ok(())
        }),
        ok == (match refused(to_fill, readonly, contiguous) {
            Some(why) => Err::<(), &'static str>(why),
            None => Ok(()),
        }),
{
    if to_fill && readonly {
        Err("readinto needs a writable buffer")
    } else if !contiguous {
        Err("buffer must be C-contiguous")
    } else {
        Ok(())
    }
}

/// What a completion queue says of a request.
pub open spec fn completed(result: i32) -> Result<i32, Error> {
    if result < 0 {
        Err(Error::Os((-result) as i32))
    } else {
        Ok(result)
    }
}

/// A request that came to a count is told the count, one that failed the code
/// that was negated; no code is lost and none is taken for a count.
pub proof fn a_completion_tells_a_count_or_a_code(count: i32, code: i32)
    requires
        count >= 0,
        code > 0,
    ensures
        completed(count) == Ok::<i32, Error>(count),
        completed((-code) as i32) == Err::<i32, Error>(Error::Os(code)),
{
}

/// What a completion queue says of a request: its count, or its error code
/// negated.
pub fn completion_result(result: i32) -> (r: Result<i32, Error>)
    requires
        result > i32::MIN,
    ensures
        r == (if result < 0 {
            Err(Error::Os((-result) as i32))
        } else {
            Ok(result)
        }),
        r == completed(result),
{
    if result < 0 {
        Err(Error::Os(-result))
    } else {
        Ok(result)
    }
}

} // verus!
