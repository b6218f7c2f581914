//! Reads served on the calling thread while every byte is in the page cache.
//!
//! Declining is never an error: whatever is declined here takes the
//! asynchronous path, which has the last word on every failure.

use vstd::prelude::*;

use crate::host::Errno;
use crate::round_trip::{part, stored};

verus! {

/// The offset for the byte `filled` behind `pos`, or `None` when no file call
/// takes an offset that great.
pub fn kernel_offset(pos: u64, filled: usize, off_max: i64) -> (offset: Option<i64>)
    requires
        off_max >= 0,
    ensures
        match offset {
            Some(o) => o == pos + filled && o <= off_max,
            None => pos + filled > off_max,
        },
{
    let at: u64 = match pos.checked_add(filled as u64) {
        Some(at) => at,
        None => {
            return None;
        },
    };
    if at <= off_max as u64 {
        Some(at as i64)
    } else {
        None
    }
}

/// The fill of `len` bytes from `pos` of a file, `filled` of them done.
#[derive(Debug, Clone, Copy, PartialEq, Eq, Structural)]
pub struct Fill {
    pub pos: u64,
    pub len: usize,
    pub filled: usize,
}

/// What a fill does next.
#[derive(Debug, Clone, Copy, PartialEq, Eq, Structural)]
pub enum FillStep {
    /// Read up to `len` bytes at `offset` to the place `start` bytes into the
    /// destination, and report by [`Fill::got`].
    Read { offset: i64, start: usize, len: usize },
    /// The fill ended with that many bytes, or declined.
    End(Option<usize>),
}

impl Fill {
    pub open spec fn wf(self) -> bool {
        self.filled <= self.len
    }

    /// What the fill does next: done when it is full, declined when the next
    /// byte has no offset.
    pub open spec fn step(self, off_max: i64) -> FillStep {
        if self.filled >= self.len {
            FillStep::End(Some(self.filled))
        } else if self.pos + self.filled > off_max {
            FillStep::End(None)
        } else {
            FillStep::Read {
                offset: (self.pos + self.filled) as i64,
                start: self.filled,
                len: (self.len - self.filled) as usize,
            }
        }
    }

    /// The fill after a read: a count, or an error code.
    pub open spec fn after(self, n: Result<usize, i32>) -> Fill {
        match n {
            Ok(n) => Fill { filled: (self.filled + n) as usize, ..self },
            Err(_) => self,
        }
    }

    /// How the fill ends with a read, if it does: at the end of the file with
    /// what is there, and declined on any error but an interruption.
    pub open spec fn ends(self, n: Result<usize, i32>, errno: Errno) -> Option<Option<usize>> {
        match n {
            Ok(n) => if n == 0 {
                Some(Some(self.filled))
            } else {
                None
            },
            Err(code) => if code == errno.interrupted {
                None
            } else {
                Some(None)
            },
        }
    }

    /// A fill of `len` bytes from `pos`.
    pub fn new(pos: u64, len: usize) -> (fill: Fill)
        ensures
            fill.wf(),
            fill == (Fill { pos, len, filled: 0 }),
    {
        Fill { pos, len, filled: 0 }
    }

    /// What to do next.
    pub fn next(&self, off_max: i64) -> (step: FillStep)
        requires
            self.wf(),
            off_max >= 0,
        ensures
            step == self.step(off_max),
    {
        if self.filled >= self.len {
            return FillStep::End(Some(self.filled));
        }
        match kernel_offset(self.pos, self.filled, off_max) {
            None => FillStep::End(None),
            Some(offset) => FillStep::Read {
                offset,
                start: self.filled,
                len: self.len - self.filled,
            },
        }
    }

    /// The read that was asked for returned a count or an error code. `Some`
    /// is how the fill ended; otherwise it goes on.
    pub fn got(&mut self, n: Result<usize, i32>, errno: &Errno) -> (end: Option<Option<usize>>)
        requires
            old(self).wf(),
            n matches Ok(n) ==> n <= old(self).len - old(self).filled,
        ensures
            final(self).wf(),
            *final(self) == old(self).after(n),
            end == old(self).ends(n, *errno),
    {
        match n {
            Ok(n) => {
                if n == 0 {
                    return Some(Some(self.filled));
                }
                self.filled = self.filled + n;
                None
            },
            Err(code) => if code == errno.interrupted {
                None
            } else {
                Some(None)
            },
        }
    }
}

/// The fill after the reads `reads`.
pub open spec fn filled_by(fill: Fill, reads: Seq<Result<usize, i32>>) -> Fill
    decreases reads.len(),
{
    if reads.len() == 0 {
        fill
    } else {
        filled_by(fill, reads.drop_last()).after(reads.last())
    }
}

/// Whether the fill can have gone through `reads`, none of which ended it.
pub open spec fn fills_through(fill: Fill, reads: Seq<Result<usize, i32>>, errno: Errno, off_max: i64)
    -> bool
    decreases reads.len(),
{
    reads.len() == 0 || {
        let before = filled_by(fill, reads.drop_last());
        let n = reads.last();
        &&& fills_through(fill, reads.drop_last(), errno, off_max)
        &&& before.step(off_max) is Read
        &&& n matches Ok(k) ==> k <= before.len - before.filled
        &&& before.ends(n, errno) is None
    }
}

/// How many bytes the reads brought.
pub open spec fn brought(reads: Seq<Result<usize, i32>>) -> nat
    decreases reads.len(),
{
    if reads.len() == 0 {
        0
    } else {
        brought(reads.drop_last()) + match reads.last() {
            Ok(n) => n as nat,
            Err(_) => 0,
        }
    }
}

/// A fill asks for every byte once and in order: after any reads it holds what
/// they brought, and its next read is for the byte behind them.
pub proof fn a_fill_reads_every_byte_once(
    pos: u64,
    len: usize,
    reads: Seq<Result<usize, i32>>,
    errno: Errno,
    off_max: i64,
)
    requires
        fills_through(Fill { pos, len, filled: 0 }, reads, errno, off_max),
    ensures
        ({
            let now = filled_by(Fill { pos, len, filled: 0 }, reads);
            &&& now.pos == pos && now.len == len && now.wf()
            &&& now.filled == brought(reads)
            &&& now.step(off_max) matches FillStep::Read { offset, start, len: l } ==> {
                &&& offset == pos + brought(reads)
                &&& start == brought(reads)
                &&& start + l == len
            }
        }),
    decreases reads.len(),
{
    if reads.len() > 0 {
        a_fill_reads_every_byte_once(pos, len, reads.drop_last(), errno, off_max);
    }
}

/// A fill that is not declined is short only at the end of the file: it brought
/// all it was asked for, or its last read found nothing more.
pub proof fn a_fill_is_short_only_at_the_end(
    pos: u64,
    len: usize,
    reads: Seq<Result<usize, i32>>,
    last: Result<usize, i32>,
    errno: Errno,
    off_max: i64,
    n: usize,
)
    requires
        fills_through(Fill { pos, len, filled: 0 }, reads, errno, off_max),
        ({
            let now = filled_by(Fill { pos, len, filled: 0 }, reads);
            now.step(off_max) == FillStep::End(Some(n)) || (now.step(off_max) is Read && now.ends(
                last,
                errno,
            ) == Some(Some(n)))
        }),
    ensures
        n == brought(reads),
        n <= len,
        n < len ==> last == Ok::<usize, i32>(0),
{
    a_fill_reads_every_byte_once(pos, len, reads, errno, off_max);
}

/// Whether the reads of a fill can have been those of a file of `size` bytes: a
/// read brings no byte behind the end of the file, and nothing only there.
pub open spec fn reads_of(size: int, fill: Fill, reads: Seq<Result<usize, i32>>) -> bool
    decreases reads.len(),
{
    reads.len() == 0 || {
        let at = filled_by(fill, reads.drop_last());
        &&& reads_of(size, fill, reads.drop_last())
        &&& reads.last() matches Ok(n) ==> (if n == 0 {
            at.pos + at.filled >= size
        } else {
            at.pos + at.filled + n <= size
        })
    }
}

/// What the destination holds after the reads of a fill from `file`, each of
/// which put its bytes where it was told to.
pub open spec fn destination(
    memory: Seq<u8>,
    file: Seq<u8>,
    fill: Fill,
    reads: Seq<Result<usize, i32>>,
    off_max: i64,
) -> Seq<u8>
    decreases reads.len(),
{
    if reads.len() == 0 {
        memory
    } else {
        let before = destination(memory, file, fill, reads.drop_last(), off_max);
        match (filled_by(fill, reads.drop_last()).step(off_max), reads.last()) {
            (FillStep::Read { offset, start, .. }, Ok(n)) => stored(
                before,
                start as int,
                file.subrange(offset as int, offset + n),
            ),
            _ => before,
        }
    }
}

/// A fill that is not declined brought what the file holds of its range: all
/// that was asked for, unless the file ends before.
pub proof fn a_fill_counts_what_the_file_holds(
    size: int,
    pos: u64,
    len: usize,
    reads: Seq<Result<usize, i32>>,
    last: Result<usize, i32>,
    errno: Errno,
    off_max: i64,
    n: usize,
)
    requires
        size >= 0,
        fills_through(Fill { pos, len, filled: 0 }, reads, errno, off_max),
        reads_of(size, Fill { pos, len, filled: 0 }, reads.push(last)),
        ({
            let now = filled_by(Fill { pos, len, filled: 0 }, reads);
            now.step(off_max) == FillStep::End(Some(n)) || (now.step(off_max) is Read && now.ends(
                last,
                errno,
            ) == Some(Some(n)))
        }),
    ensures
        n == (if pos >= size {
            0
        } else if pos + len <= size {
            len as int
        } else {
            size - pos
        }),
{
    let fill = Fill { pos, len, filled: 0 };
    assert(reads.push(last).drop_last() =~= reads);
    a_fill_reads_every_byte_once(pos, len, reads, errno, off_max);
    lemma_fill_stays_in_the_file(size, fill, reads, errno, off_max);
}

/// What a fill has brought lies in the file.
proof fn lemma_fill_stays_in_the_file(
    size: int,
    fill: Fill,
    reads: Seq<Result<usize, i32>>,
    errno: Errno,
    off_max: i64,
)
    requires
        fill.filled == 0,
        fills_through(fill, reads, errno, off_max),
        reads_of(size, fill, reads),
    ensures
        ({
            let now = filled_by(fill, reads);
            &&& now.pos == fill.pos && now.len == fill.len && now.wf()
            &&& now.filled > 0 ==> now.pos + now.filled <= size
        }),
    decreases reads.len(),
{
    if reads.len() > 0 {
        lemma_fill_stays_in_the_file(size, fill, reads.drop_last(), errno, off_max);
    }
}

/// A fill puts the bytes of the file where they belong: as many as it brought,
/// from its position in the file on, from the start of its destination on. The
/// rest of the destination stays as it was.
pub proof fn a_fill_brings_the_bytes_of_the_file(
    memory: Seq<u8>,
    file: Seq<u8>,
    pos: u64,
    len: usize,
    reads: Seq<Result<usize, i32>>,
    errno: Errno,
    off_max: i64,
)
    requires
        memory.len() == len,
        fills_through(Fill { pos, len, filled: 0 }, reads, errno, off_max),
        reads_of(file.len() as int, Fill { pos, len, filled: 0 }, reads),
    ensures
        destination(memory, file, Fill { pos, len, filled: 0 }, reads, off_max) == stored(
            memory,
            0,
            part(file, pos as int, brought(reads) as int),
        ),
        part(file, pos as int, brought(reads) as int).len() == brought(reads),
        brought(reads) <= len,
    decreases reads.len(),
{
    let fill = Fill { pos, len, filled: 0 };
    a_fill_reads_every_byte_once(pos, len, reads, errno, off_max);
    lemma_fill_stays_in_the_file(file.len() as int, fill, reads, errno, off_max);
    if reads.len() == 0 {
        assert(stored(memory, 0, part(file, pos as int, 0)) =~= memory);
    } else {
        let before = reads.drop_last();
        a_fill_brings_the_bytes_of_the_file(memory, file, pos, len, before, errno, off_max);
        a_fill_reads_every_byte_once(pos, len, before, errno, off_max);
        assert(destination(memory, file, fill, reads, off_max) =~= stored(
            memory,
            0,
            part(file, pos as int, brought(reads) as int),
        ));
    }
}

/// Whether a descriptor can be filled from at all: a negative one stands for
/// none.
pub fn usable(fd: i32) -> (yes: bool)
    ensures
        yes == (fd >= 0),
{
    fd >= 0
}

/// A fill is declined by an error of the system other than an interruption, or
/// for want of an offset, and by nothing else. An interruption leaves it where
/// it was; a read that brought something leads it on by just that.
pub proof fn a_fill_is_declined_only_by_an_error(
    fill: Fill,
    n: Result<usize, i32>,
    errno: Errno,
    off_max: i64,
)
    requires
        fill.wf(),
        n matches Ok(k) ==> k <= fill.len - fill.filled,
    ensures
        fill.ends(n, errno) == Some(None::<usize>) <==> (n matches Err(code) && code
            != errno.interrupted),
        fill.ends(n, errno) == Some(Some(fill.filled)) <==> n == Ok::<usize, i32>(0),
        n == Err::<usize, i32>(errno.interrupted) ==> fill.ends(n, errno) is None && fill.after(n)
            == fill,
        n matches Ok(k) ==> fill.after(n).filled == fill.filled + k,
        fill.step(off_max) == FillStep::End(None) <==> fill.filled < fill.len && fill.pos
            + fill.filled > off_max,
        fill.step(off_max) == FillStep::End(Some(fill.filled)) <==> fill.filled == fill.len,
        fill.step(off_max) is Read <==> fill.filled < fill.len && fill.pos + fill.filled <= off_max,
{
}

/// What a probe for one byte says of a descriptor.
pub open spec fn verdict_of(n: Result<usize, i32>, errno: Errno) -> Option<bool> {
    match n {
        Ok(_) => Some(true),
        Err(code) => if code == errno.interrupted {
            None
        } else {
            Some(code == errno.again)
        },
    }
}

/// A probe shows that cached reads can be served exactly when it brought a byte
/// or the end of the file, or would have had to wait for one. It leaves it open
/// only where it was interrupted; every other error shows that they cannot.
pub proof fn a_probe_shows_what_can_be_served(n: Result<usize, i32>, errno: Errno)
    requires
        errno.wf(),
    ensures
        verdict_of(n, errno) == Some(true) <==> n is Ok || n == Err::<usize, i32>(errno.again),
        verdict_of(n, errno) is None <==> n == Err::<usize, i32>(errno.interrupted),
{
}

/// What a probe for one byte says of a descriptor: that cached reads can be
/// served from it, or not, or that an interruption left it open. Only a probe
/// that completed, or one that would have blocked, shows that they can.
pub fn probe_verdict(n: Result<usize, i32>, errno: &Errno) -> (verdict: Option<bool>)
    ensures
        verdict == (match n {
            Ok(_) => Some(true),
            Err(code) => if code == errno.interrupted {
                None
            } else {
                Some(code == errno.again)
            },
        }),
        verdict == verdict_of(n, *errno),
{
    match n {
        Ok(_) => Some(true),
        Err(code) => if code == errno.interrupted {
            None
        } else {
            Some(code == errno.again)
        },
    }
}

/// Whether a probe for one byte at the size says that the file ends there.
pub open spec fn says_end(n: Result<usize, i32>) -> bool {
    n matches Ok(n) && n == 0
}

/// Whether a second look at the size agrees with the first.
pub open spec fn agrees(now: Option<u64>, size: u64) -> bool {
    now == Some(size)
}

/// The last check of a read of everything passes only on a file that has not
/// grown behind its back: a probe that found no byte at the size shows that the
/// file, of `now` bytes then, has none there, and a second look that agrees
/// shows that it has just as many as before. A probe that failed shows nothing,
/// nor does a look that brought no size.
pub proof fn the_last_check_passes_on_an_unchanged_file_only(
    probe: Result<usize, i32>,
    now: u64,
    size: u64,
    code: i32,
)
    requires
        probe matches Ok(n) ==> (n == 0 <==> now <= size),
    ensures
        says_end(probe) ==> now <= size,
        probe is Ok && now <= size ==> says_end(probe),
        !says_end(Err(code)),
        agrees(Some(now), size) <==> now == size,
        !agrees(None, size),
{
}

/// Whether a probe for one byte at the size found the end of the file there.
/// Anything else, an error included, leaves it unknown.
pub fn probe_found_end(n: Result<usize, i32>) -> (yes: bool)
    ensures
        yes == (n == Ok::<usize, i32>(0)),
        yes == says_end(n),
{
    match n {
        Ok(n) => n == 0,
        Err(_) => false,
    }
}

/// Whether a second look at the size agrees with the first.
pub fn size_unchanged(now: Option<u64>, size: u64) -> (yes: bool)
    ensures
        yes == (now == Some(size)),
        yes == agrees(now, size),
{
    match now {
        Some(n) => n == size,
        None => false,
    }
}

/// What becomes of the destination of a sized read.
#[derive(Debug, Clone, Copy, PartialEq, Eq, Structural)]
pub enum Served {
    /// Take the asynchronous path.
    Decline,
    /// All of the destination.
    Whole,
    /// The first bytes of it.
    Prefix(usize),
}

/// What becomes of a read of `len` bytes, from how its fill ended.
pub open spec fn served_of(len: usize, filled: Option<usize>) -> Served {
    match filled {
        Some(n) if len > 0 => if n == len {
            Served::Whole
        } else {
            Served::Prefix(n)
        },
        _ => Served::Decline,
    }
}

/// The bytes that a sized read gives, if it gives any, of a destination.
pub open spec fn shown(served: Served, destination: Seq<u8>) -> Option<Seq<u8>> {
    match served {
        Served::Decline => None,
        Served::Whole => Some(destination),
        Served::Prefix(n) => Some(destination.take(n as int)),
    }
}

/// A sized read that is served gives just what the file holds of its range,
/// whatever its destination held before; and every read of something whose fill
/// was not declined is served.
pub proof fn a_served_read_gives_the_part_of_the_file(
    memory: Seq<u8>,
    file: Seq<u8>,
    pos: u64,
    len: usize,
    reads: Seq<Result<usize, i32>>,
    last: Result<usize, i32>,
    errno: Errno,
    off_max: i64,
    n: usize,
)
    requires
        memory.len() == len,
        len > 0,
        fills_through(Fill { pos, len, filled: 0 }, reads, errno, off_max),
        reads_of(file.len() as int, Fill { pos, len, filled: 0 }, reads.push(last)),
        ({
            let now = filled_by(Fill { pos, len, filled: 0 }, reads);
            now.step(off_max) == FillStep::End(Some(n)) || (now.step(off_max) is Read && now.ends(
                last,
                errno,
            ) == Some(Some(n)))
        }),
    ensures
        shown(
            served_of(len, Some(n)),
            destination(memory, file, Fill { pos, len, filled: 0 }, reads, off_max),
        ) == Some(part(file, pos as int, len as int)),
        served_of(len, None) is Decline,
        served_of(0, Some(n)) is Decline,
{
    let fill = Fill { pos, len, filled: 0 };
    assert(reads.push(last).drop_last() =~= reads);
    a_fill_counts_what_the_file_holds(
        file.len() as int,
        pos,
        len,
        reads,
        last,
        errno,
        off_max,
        n,
    );
    a_fill_is_short_only_at_the_end(pos, len, reads, last, errno, off_max, n);
    a_fill_brings_the_bytes_of_the_file(memory, file, pos, len, reads, errno, off_max);
    let there = part(file, pos as int, n as int);
    let got = destination(memory, file, fill, reads, off_max);
    assert(there =~= part(file, pos as int, len as int));
    assert(got.take(n as int) =~= there);
    if n == len {
        assert(got =~= there);
    }
}

/// What a read of `len` bytes gives, from how its fill ended. A read of nothing
/// is declined without a fill.
pub fn serve(len: usize, filled: Option<usize>) -> (served: Served)
    ensures
        served == (match filled {
            Some(n) if len > 0 => if n == len {
                Served::Whole
            } else {
                Served::Prefix(n)
            },
            _ => Served::Decline,
        }),
        served == served_of(len, filled),
{
    if len == 0 {
        return Served::Decline;
    }
    match filled {
        None => Served::Decline,
        Some(n) => if n == len {
            Served::Whole
        } else {
            Served::Prefix(n)
        },
    }
}

/// A step of a read of everything from a position on.
#[derive(Debug, Clone, Copy, PartialEq, Eq, Structural)]
pub enum AllStep {
    /// Take the asynchronous path.
    Decline,
    /// Fill a destination of that many bytes, then go on with [`all_filled`].
    Fill { len: usize },
    /// Check that the file still ends at the size; if so, the destination of
    /// that many bytes is the result.
    CheckEnd { len: usize },
}

/// How a read of everything from `pos` on of a file of `size` bytes begins:
/// declined for what is not a regular file and for what no allocation holds.
pub open spec fn all_begins(size: Option<u64>, pos: u64) -> AllStep {
    match size {
        None => AllStep::Decline,
        Some(s) => if s <= pos {
            AllStep::CheckEnd { len: 0 }
        } else if s - pos > usize::MAX {
            AllStep::Decline
        } else {
            AllStep::Fill { len: (s - pos) as usize }
        },
    }
}

/// How it goes on after its fill: only a full one counts.
pub open spec fn all_after_fill(len: usize, filled: Option<usize>) -> AllStep {
    if filled == Some(len) {
        AllStep::CheckEnd { len }
    } else {
        AllStep::Decline
    }
}

/// Begin a read of everything from `pos` on of a file of `size` bytes, `None`
/// for one that is not a regular file.
pub fn all_begin(size: Option<u64>, pos: u64) -> (step: AllStep)
    ensures
        step == all_begins(size, pos),
{
    match size {
        None => AllStep::Decline,
        Some(size) => {
            let rest: u64 = size.saturating_sub(pos);
            if rest == 0 {
                AllStep::CheckEnd { len: 0 }
            } else if rest > usize::MAX as u64 {
                AllStep::Decline
            } else {
                AllStep::Fill { len: rest as usize }
            }
        },
    }
}

/// The fill of a read of everything ended.
pub fn all_filled(len: usize, filled: Option<usize>) -> (step: AllStep)
    ensures
        step == all_after_fill(len, filled),
{
    match filled {
        Some(n) => if n == len {
            AllStep::CheckEnd { len }
        } else {
            AllStep::Decline
        },
        None => AllStep::Decline,
    }
}

/// A read of everything that comes to its last check holds exactly the bytes
/// from its position to the size, all of them filled.
pub proof fn a_served_read_of_everything_is_whole(
    size: u64,
    pos: u64,
    filled: Option<usize>,
    len: usize,
)
    requires
        match all_begins(Some(size), pos) {
            AllStep::Fill { len: l } => all_after_fill(l, filled) == (AllStep::CheckEnd { len }),
            step => step == (AllStep::CheckEnd { len }),
        },
    ensures
        size > pos ==> pos + len == size && filled == Some(len),
        size <= pos ==> len == 0,
{
}

/// A read of everything that comes to its last check, and finds the file to end
/// at the size it was said to have, gives all that the file holds from its
/// position on. It is declined only where there is no size, no memory for so
/// many bytes, or its fill was declined or came out short.
pub proof fn a_served_read_of_everything_gives_the_rest_of_the_file(
    memory: Seq<u8>,
    file: Seq<u8>,
    size: Option<u64>,
    pos: u64,
    reads: Seq<Result<usize, i32>>,
    last: Result<usize, i32>,
    errno: Errno,
    off_max: i64,
    n: usize,
    len: usize,
)
    requires
        memory.len() == len,
        size == Some(file.len() as u64),
        file.len() <= u64::MAX,
        all_begins(size, pos) == (AllStep::Fill { len }),
        fills_through(Fill { pos, len, filled: 0 }, reads, errno, off_max),
        reads_of(file.len() as int, Fill { pos, len, filled: 0 }, reads.push(last)),
        ({
            let now = filled_by(Fill { pos, len, filled: 0 }, reads);
            now.step(off_max) == FillStep::End(Some(n)) || (now.step(off_max) is Read && now.ends(
                last,
                errno,
            ) == Some(Some(n)))
        }),
    ensures
        all_after_fill(len, Some(n)) == (AllStep::CheckEnd { len }),
        all_after_fill(len, None) is Decline,
        n < usize::MAX ==> all_after_fill((n + 1) as usize, Some(n)) is Decline,
        destination(memory, file, Fill { pos, len, filled: 0 }, reads, off_max) == part(
            file,
            pos as int,
            file.len() as int,
        ),
{
    a_served_read_gives_the_part_of_the_file(
        memory,
        file,
        pos,
        len,
        reads,
        last,
        errno,
        off_max,
        n,
    );
    a_fill_counts_what_the_file_holds(
        file.len() as int,
        pos,
        len,
        reads,
        last,
        errno,
        off_max,
        n,
    );
    assert(part(file, pos as int, len as int) =~= part(file, pos as int, file.len() as int));
}

/// A read of everything begins with a fill of all that there is to fill, and is
/// declined at once only for what is no regular file and for more than memory
/// can hold.
pub proof fn a_read_of_everything_asks_for_everything(size: Option<u64>, pos: u64)
    ensures
        match (size, all_begins(size, pos)) {
            (Some(s), AllStep::Fill { len }) => pos < s && pos + len == s,
            (Some(s), AllStep::CheckEnd { len }) => s <= pos && len == 0,
            (Some(s), AllStep::Decline) => s - pos > usize::MAX,
            (None, step) => step is Decline,
        },
{
}

} // verus!
