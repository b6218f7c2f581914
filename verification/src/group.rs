//! One large read as several chunks in flight at once: how it is cut, and what
//! it gives when the last chunk is done.

use vstd::arithmetic::div_mod::lemma_fundamental_div_mod;
use vstd::prelude::*;

use crate::error::{Error, ErrorKind};
use crate::op::{outcome, Dest, Op, Reply, ReplyView};

verus! {

/// One chunk of a read: `len` bytes at `pos` of the file, to the byte `start`
/// of the destination.
#[derive(Debug, Clone, Copy, PartialEq, Eq, Structural)]
pub struct Piece {
    pub start: usize,
    pub pos: u64,
    pub len: usize,
}

/// The number of pieces of at most `chunk` bytes that `len` bytes take.
pub open spec fn piece_count(len: int, chunk: int) -> int {
    (len + chunk - 1) / chunk
}

/// The piece number `i`: as many bytes as a piece has, or what is left.
pub open spec fn piece(pos: u64, len: usize, chunk: usize, i: int) -> Piece {
    Piece {
        start: (i * chunk) as usize,
        pos: (pos + i * chunk) as u64,
        len: if len - i * chunk < chunk {
            (len - i * chunk) as usize
        } else {
            chunk
        },
    }
}

/// Whether the place in the file where the last piece begins exists, if there
/// is a piece.
pub open spec fn starts_fit(pos: u64, len: usize, chunk: usize) -> bool {
    chunk > 0 && len > 0 ==> pos + (piece_count(len as int, chunk as int) - 1) * chunk <= u64::MAX
}

/// Whether every piece begins at a place in the file that exists.
pub fn fits(pos: u64, len: usize, chunk: usize) -> (yes: bool)
    ensures
        yes == starts_fit(pos, len, chunk),
{
    if chunk == 0 || len == 0 {
        return true;
    }
    let before: usize = (len - 1) / chunk;
    proof {
        let (c, n) = (chunk as int, before as int);
        lemma_fundamental_div_mod(len - 1, c);
        assert(n * c < len <= (n + 1) * c && n >= 0) by (nonlinear_arith)
            requires
                len - 1 == c * n + (len - 1) % c,
                0 <= (len - 1) % c < c,
                len >= 1,
        ;
        lemma_count(len as int, c, n + 1);
    }
    let last: usize = before * chunk;
    last as u64 <= u64::MAX - pos
}

/// A read can be cut exactly when each of its pieces begins at a place that
/// there is.
pub proof fn a_read_can_be_cut_if_its_pieces_have_a_place(pos: u64, len: usize, chunk: usize)
    requires
        chunk > 0,
    ensures
        chunk_not_positive()@ == "chunk must be positive"@,
        starts_fit(pos, len, chunk) <==> forall|i: int|
            0 <= i && #[trigger] (i * chunk) < len ==> pos + i * chunk <= u64::MAX,
{
    let c = chunk as int;
    if len > 0 {
        let n = piece_count(len as int, c);
        lemma_fundamental_div_mod(len + c - 1, c);
        assert(n >= 1 && (n - 1) * c < len) by (nonlinear_arith)
            requires
                len + c - 1 == c * n + (len + c - 1) % c,
                0 <= (len + c - 1) % c < c,
                len >= 1,
                c >= 1,
        ;
        assert forall|i: int| 0 <= i && #[trigger] (i * chunk) < len implies i * chunk <= (n - 1)
            * chunk by {
            lemma_start_is_not_past_the_last(len as int, c, i);
        }
        assert((n - 1) * chunk < len);
    } else {
        assert forall|i: int| 0 <= i implies #[trigger] (i * chunk) >= 0 by {
            assert(i * chunk >= 0) by (nonlinear_arith)
                requires
                    i >= 0,
            ;
        }
    }
}

/// Why a read cannot be cut.
pub open spec fn chunk_not_positive() -> &'static str {
    "chunk must be positive"
}

/// Cut a read of `len` bytes at `pos` into pieces of `chunk` bytes, the last
/// of them shorter if need be.
pub fn plan(pos: u64, len: usize, chunk: usize) -> (pieces: Result<Vec<Piece>, &'static str>)
    requires
        starts_fit(pos, len, chunk),
    ensures
        match pieces {
            Err(why) => chunk == 0 && why == chunk_not_positive(),
            Ok(p) => {
                &&& chunk > 0
                &&& p@.len() == piece_count(len as int, chunk as int)
                &&& forall|i: int|
                    0 <= i < p@.len() ==> #[trigger] p@[i] == piece(pos, len, chunk, i)
            },
        },
{
    if chunk == 0 {
        return Err("chunk must be positive");
    }
    let mut pieces: Vec<Piece> = Vec::new();
    let mut start: usize = 0;
    proof {
        assert(0 * chunk == 0) by (nonlinear_arith);
    }
    while start < len
        invariant
            chunk > 0,
            starts_fit(pos, len, chunk),
            start <= len,
            start < len ==> start == pieces@.len() * chunk,
            start == len ==> pieces@.len() == piece_count(len as int, chunk as int) || pieces@.len()
                == 0 && len == 0,
            forall|i: int|
                0 <= i < pieces@.len() ==> #[trigger] pieces@[i] == piece(pos, len, chunk, i),
        decreases len - start,
    {
        let left: usize = len - start;
        let take: usize = if left < chunk {
            left
        } else {
            chunk
        };
        let ghost i = pieces@.len() as int;
        proof {
            lemma_start_is_not_past_the_last(len as int, chunk as int, i);
        }
        pieces.push(Piece { start, pos: pos + start as u64, len: take });
        proof {
            assert((i + 1) * chunk == i * chunk + chunk) by (nonlinear_arith);
            if left <= chunk {
                lemma_count(len as int, chunk as int, i + 1);
            }
        }
        start = start + take;
    }
    proof {
        if len == 0 {
            lemma_count_of_nothing(chunk as int);
        }
    }
    Ok(pieces)
}

/// The operation that reads `piece` of `handle` into the destination at the
/// address `base`.
pub open spec fn read_of<'a>(piece: Piece, handle: u64, base: usize) -> Op<'a> {
    Op::ReadAt {
        handle,
        pos: piece.pos,
        dest: Dest::Into { addr: (base + piece.start) as usize, len: piece.len },
    }
}

impl Piece {
    /// The operation that reads the piece of `handle` into the destination at
    /// the address `base`.
    pub fn op<'a>(&self, handle: u64, base: usize) -> (op: Op<'a>)
        requires
            base + self.start + self.len <= usize::MAX,
        ensures
            op.wf(),
            op == (Op::ReadAt {
                handle,
                pos: self.pos,
                dest: Dest::Into { addr: (base + self.start) as usize, len: self.len },
            }),
            op == read_of::<'a>(*self, handle, base),
    {
        Op::ReadAt {
            handle,
            pos: self.pos,
            dest: Dest::Into { addr: base + self.start, len: self.len },
        }
    }
}

/// As many pieces as it takes to reach `len` and no more is the count.
proof fn lemma_count(len: int, chunk: int, n: int)
    requires
        chunk > 0,
        n >= 1,
        (n - 1) * chunk < len <= n * chunk,
    ensures
        piece_count(len, chunk) == n,
{
    let r = len - (n - 1) * chunk - 1;
    assert(len + chunk - 1 == n * chunk + r) by (nonlinear_arith)
        requires
            r == len - (n - 1) * chunk - 1,
    ;
    assert(0 <= r < chunk) by (nonlinear_arith)
        requires
            r == len - (n - 1) * chunk - 1,
            (n - 1) * chunk < len <= n * chunk,
    ;
    vstd::arithmetic::div_mod::lemma_fundamental_div_mod_converse(len + chunk - 1, chunk, n, r);
}

/// A piece that begins before the end begins no later than the last one.
proof fn lemma_start_is_not_past_the_last(len: int, chunk: int, i: int)
    requires
        chunk > 0,
        0 <= i,
        i * chunk < len,
    ensures
        i < piece_count(len, chunk),
        i * chunk <= (piece_count(len, chunk) - 1) * chunk,
{
    let n = piece_count(len, chunk);
    lemma_fundamental_div_mod(len + chunk - 1, chunk);
    assert(n * chunk >= len) by (nonlinear_arith)
        requires
            len + chunk - 1 == chunk * n + (len + chunk - 1) % chunk,
            0 <= (len + chunk - 1) % chunk < chunk,
    ;
    assert(i < n) by (nonlinear_arith)
        requires
            i * chunk < len,
            n * chunk >= len,
            chunk > 0,
    ;
    assert(i * chunk <= (n - 1) * chunk) by (nonlinear_arith)
        requires
            i <= n - 1,
            chunk > 0,
    ;
}

/// Nothing takes no piece.
proof fn lemma_count_of_nothing(chunk: int)
    requires
        chunk > 0,
    ensures
        piece_count(0, chunk) == 0,
{
    vstd::arithmetic::div_mod::lemma_fundamental_div_mod_converse(chunk - 1, chunk, 0, chunk - 1);
}

/// The pieces cover the read exactly: every byte of it is in one piece, at the
/// place in the file and in the destination that belong together, and in no
/// other; no piece is empty or reaches past the end.
pub proof fn the_pieces_cover_the_read(pos: u64, len: usize, chunk: usize, b: int)
    requires
        chunk > 0,
        starts_fit(pos, len, chunk),
        0 <= b < len,
    ensures
        ({
            let i = b / chunk as int;
            &&& 0 <= i < piece_count(len as int, chunk as int)
            &&& piece(pos, len, chunk, i).start <= b < piece(pos, len, chunk, i).start + piece(
                pos,
                len,
                chunk,
                i,
            ).len
        }),
        forall|i: int|
            0 <= i < piece_count(len as int, chunk as int) ==> {
                let p = #[trigger] piece(pos, len, chunk, i);
                &&& 0 < p.len <= chunk
                &&& p.start + p.len <= len
                &&& p.pos == pos + p.start
                &&& p.start <= b < p.start + p.len ==> i == b / chunk as int
            },
{
    let c = chunk as int;
    let n = piece_count(len as int, c);
    lemma_fundamental_div_mod(b, c);
    lemma_fundamental_div_mod(len + c - 1, c);
    let q = b / c;
    assert(q >= 0 && q * c <= b < q * c + c) by (nonlinear_arith)
        requires
            b == c * q + b % c,
            0 <= b % c < c,
            b >= 0,
    ;
    assert(n * c > len - 1 && (n - 1) * c < len) by (nonlinear_arith)
        requires
            len + c - 1 == c * n + (len + c - 1) % c,
            0 <= (len + c - 1) % c < c,
    ;
    assert(q < n) by (nonlinear_arith)
        requires
            q * c <= b,
            b < len,
            n * c > len - 1,
            c > 0,
    ;
    assert forall|i: int| 0 <= i < n implies {
        let p = #[trigger] piece(pos, len, chunk, i);
        &&& 0 < p.len <= chunk
        &&& p.start + p.len <= len
        &&& p.pos == pos + p.start
        &&& p.start <= b < p.start + p.len ==> i == q
    } by {
        assert(0 <= i * c < len) by (nonlinear_arith)
            requires
                0 <= i <= n - 1,
                (n - 1) * c < len,
                c > 0,
        ;
        lemma_start_is_not_past_the_last(len as int, c, i);
        let p = piece(pos, len, chunk, i);
        if p.start <= b < p.start + p.len {
            assert(i == q) by (nonlinear_arith)
                requires
                    i * c <= b < i * c + c,
                    q * c <= b < q * c + c,
                    c > 0,
            ;
        }
    }
    assert(0 <= q * c < len);
}

/// The pieces read every byte of the range to its own place: the operation of
/// the piece that holds the byte `b` of the read reads the byte `b` behind the
/// position of the handle to the byte `b` of the destination, and stays in the
/// destination.
pub proof fn the_pieces_read_every_byte_to_its_place<'a>(
    pos: u64,
    len: usize,
    chunk: usize,
    b: int,
    handle: u64,
    base: usize,
)
    requires
        chunk > 0,
        starts_fit(pos, len, chunk),
        0 <= b < len,
        base + len <= usize::MAX,
    ensures
        exists|i: int|
            0 <= i < piece_count(len as int, chunk as int) && (read_of::<'a>(
                #[trigger] piece(pos, len, chunk, i),
                handle,
                base,
            ) matches Op::ReadAt { handle: h, pos: p, dest: Dest::Into { addr, len: l } } && {
                &&& h == handle
                &&& p <= pos + b < p + l
                &&& addr + (pos + b - p) == base + b
                &&& base <= addr && addr + l <= base + len
            }),
{
    the_pieces_cover_the_read(pos, len, chunk, b);
    let i = b / chunk as int;
    let p = piece(pos, len, chunk, i);
    assert(p.start + p.len <= len && p.pos == pos + p.start);
}

/// The state that the pieces of one read share: how many are not done, up to
/// where the destination is filled without a gap, and the first error.
#[derive(Debug, Clone, Copy, PartialEq, Eq)]
pub struct ReadGroup {
    pub remaining: usize,
    pub n_limit: usize,
    pub error: Option<Error>,
}

/// The error for a piece that was answered with something else than a count.
pub open spec fn mismatched_spec() -> Error {
    Error::Custom { kind: ErrorKind::Other, message: "mismatched turbofile reply in read group" }
}

/// Where the destination is filled to as far as one piece tells: a short piece
/// ends it where the piece does.
pub open spec fn reaches(len: usize, start: usize, piece_len: usize, result: Result<
    ReplyView,
    Error,
>) -> int {
    match result {
        Ok(ReplyView::Read { n }) if n < piece_len => if start + n < len {
            start + n
        } else {
            len as int
        },
        _ => len as int,
    }
}

/// The error that one piece brings.
pub open spec fn brings(result: Result<ReplyView, Error>) -> Option<Error> {
    match result {
        Ok(ReplyView::Read { .. }) => None,
        Ok(_) => Some(mismatched_spec()),
        Err(e) => Some(e),
    }
}

impl ReadGroup {
    /// The group after one piece.
    pub open spec fn after(self, start: usize, piece_len: usize, result: Result<
        ReplyView,
        Error,
    >) -> ReadGroup {
        ReadGroup {
            remaining: (self.remaining - 1) as usize,
            n_limit: reaches(self.n_limit, start, piece_len, result) as usize,
            error: match self.error {
                Some(e) => Some(e),
                None => brings(result),
            },
        }
    }

    /// What the whole read settles with: the first error, or how far the
    /// destination is filled.
    pub open spec fn result(self) -> Result<ReplyView, Error> {
        match self.error {
            Some(e) => Err(e),
            None => Ok(ReplyView::Read { n: self.n_limit }),
        }
    }

    /// The group of a read of `len` bytes of which no piece is done.
    pub open spec fn fresh(pieces: usize, len: usize) -> ReadGroup {
        ReadGroup {
            remaining: if pieces < 1 {
                1
            } else {
                pieces
            },
            n_limit: len,
            error: None,
        }
    }

    /// The group of a read of `len` bytes in `pieces` pieces. A read of nothing
    /// still waits for one.
    pub fn new(pieces: usize, len: usize) -> (group: ReadGroup)
        ensures
            group.remaining == (if pieces < 1 {
                1
            } else {
                pieces
            }),
            group.n_limit == len,
            group.error is None,
            group == ReadGroup::fresh(pieces, len),
    {
        let remaining: usize = if pieces < 1 {
            1
        } else {
            pieces
        };
        ReadGroup { remaining, n_limit: len, error: None }
    }

    /// A piece is done. The last one brings what the whole read settles with.
    pub fn chunk_done(&mut self, start: usize, piece_len: usize, result: Result<Reply, Error>) -> (
    settled: Option<Result<Reply, Error>>)
        requires
            old(self).remaining > 0,
            start + piece_len <= usize::MAX,
        ensures
            *final(self) == old(self).after(start, piece_len, outcome(result)),
            match settled {
                None => final(self).remaining > 0,
                Some(r) => final(self).remaining == 0 && outcome(r) == final(self).result(),
            },
    {
        match result {
            Ok(Reply::Read { n }) => {
                if n < piece_len {
                    let end: usize = start + n;
                    if end < self.n_limit {
                        self.n_limit = end;
                    }
                }
            },
            Ok(_) => {
                if self.error.is_none() {
                    self.error = Some(
                        Error::Custom {
                            kind: ErrorKind::Other,
                            message: "mismatched turbofile reply in read group",
                        },
                    );
                }
            },
            Err(e) => {
                if self.error.is_none() {
                    self.error = Some(e);
                }
            },
        }
        self.remaining = self.remaining - 1;
        if self.remaining > 0 {
            return None;
        }
        match self.error {
            Some(e) => Some(Err(e)),
            None => Some(Ok(Reply::Read { n: self.n_limit })),
        }
    }
}

/// A piece that is done.
pub struct DonePiece {
    pub start: usize,
    pub len: usize,
    pub result: Result<ReplyView, Error>,
}

/// The group after the pieces `done`, in the order in which they finished.
pub open spec fn after_all(group: ReadGroup, done: Seq<DonePiece>) -> ReadGroup
    decreases done.len(),
{
    if done.len() == 0 {
        group
    } else {
        after_all(group, done.drop_last()).after(
            done.last().start,
            done.last().len,
            done.last().result,
        )
    }
}

/// Whatever order the pieces finish in: without an error, every byte below the
/// count that the read gives was filled by its piece, and the count is the
/// whole length or the end of a short piece. So no longer count would be true.
pub proof fn a_read_group_gives_what_is_filled_without_a_gap(len: usize, done: Seq<DonePiece>)
    requires
        done.len() <= usize::MAX,
        forall|i: int|
            0 <= i < done.len() ==> (#[trigger] done[i]).start + done[i].len <= len,
    ensures
        ({
            let group = ReadGroup { remaining: done.len() as usize, n_limit: len, error: None };
            let end = after_all(group, done);
            &&& end.remaining == 0
            &&& end.n_limit <= len
            &&& end.error is None ==> forall|i: int|
                0 <= i < done.len() ==> {
                    let d = #[trigger] done[i];
                    d.result matches Ok(ReplyView::Read { n }) && (n >= d.len || end.n_limit
                        <= d.start + n)
                }
            &&& end.n_limit == len || exists|i: int|
                0 <= i < done.len() && {
                    let d = #[trigger] done[i];
                    d.result matches Ok(ReplyView::Read { n }) && n < d.len && end.n_limit
                        == d.start + n
                }
        }),
{
    lemma_group(len, done.len() as usize, done);
}

/// What holds of a group after some of its pieces.
proof fn lemma_group(len: usize, pieces: usize, done: Seq<DonePiece>)
    requires
        done.len() <= pieces,
        forall|i: int|
            0 <= i < done.len() ==> (#[trigger] done[i]).start + done[i].len <= len,
    ensures
        ({
            let group = ReadGroup { remaining: pieces, n_limit: len, error: None };
            let end = after_all(group, done);
            &&& end.remaining == pieces - done.len()
            &&& end.n_limit <= len
            &&& end.error is None ==> forall|i: int|
                0 <= i < done.len() ==> {
                    let d = #[trigger] done[i];
                    d.result matches Ok(ReplyView::Read { n }) && (n >= d.len || end.n_limit
                        <= d.start + n)
                }
            &&& end.n_limit == len || exists|i: int|
                0 <= i < done.len() && {
                    let d = #[trigger] done[i];
                    d.result matches Ok(ReplyView::Read { n }) && n < d.len && end.n_limit
                        == d.start + n
                }
        }),
    decreases done.len(),
{
    if done.len() > 0 {
        let before = done.drop_last();
        assert forall|i: int| 0 <= i < before.len() implies (#[trigger] before[i]).start
            + before[i].len <= len by {
            assert(before[i] == done[i]);
        }
        lemma_group(len, pieces, before);
        let group = ReadGroup { remaining: pieces, n_limit: len, error: None };
        let mid = after_all(group, before);
        let end = after_all(group, done);
        if end.error is None {
            assert forall|i: int| 0 <= i < done.len() implies {
                let d = #[trigger] done[i];
                d.result matches Ok(ReplyView::Read { n }) && (n >= d.len || end.n_limit <= d.start
                    + n)
            } by {
                if i < before.len() {
                    assert(before[i] == done[i]);
                }
            }
        }
        if end.n_limit != len {
            if end.n_limit == mid.n_limit {
                let i = choose|i: int|
                    0 <= i < before.len() && {
                        let d = #[trigger] before[i];
                        d.result matches Ok(ReplyView::Read { n }) && n < d.len && mid.n_limit
                            == d.start + n
                    };
                assert(before[i] == done[i]);
            } else {
                assert(done[done.len() - 1] == done.last());
            }
        }
    }
}

/// A read settles with its last piece and not before: as long as one of its
/// pieces is not done, the group waits for it.
pub proof fn a_read_waits_for_every_piece(len: usize, pieces: usize, done: Seq<DonePiece>)
    requires
        pieces >= 1,
        done.len() <= pieces,
    ensures
        after_all(ReadGroup::fresh(pieces, len), done).remaining == 0 <==> done.len() == pieces,
{
    lemma_remaining(ReadGroup::fresh(pieces, len), done);
}

/// Every piece that is done is one fewer to wait for.
proof fn lemma_remaining(group: ReadGroup, done: Seq<DonePiece>)
    requires
        done.len() <= group.remaining,
    ensures
        after_all(group, done).remaining == group.remaining - done.len(),
    decreases done.len(),
{
    if done.len() > 0 {
        lemma_remaining(group, done.drop_last());
    }
}

impl DonePiece {
    /// The piece brought a count.
    pub open spec fn counted(self) -> bool {
        self.result matches Ok(ReplyView::Read { .. })
    }

    /// The piece brought fewer bytes than it was to.
    pub open spec fn short(self) -> bool {
        self.result matches Ok(ReplyView::Read { n }) && n < self.len
    }

    /// Where the bytes end that the piece brought.
    pub open spec fn end(self) -> int {
        match self.result {
            Ok(ReplyView::Read { n }) => self.start + n,
            _ => self.start as int,
        }
    }
}

/// A read whose pieces all brought a count settles well, whatever order they
/// finish in and however long it is: with its whole length if every piece is
/// full, and otherwise with the least end of a short one.
pub proof fn a_read_settles_with_the_least_end_of_a_short_piece(len: usize, done: Seq<DonePiece>)
    requires
        1 <= done.len() <= usize::MAX,
        forall|i: int| 0 <= i < done.len() ==> (#[trigger] done[i]).start + done[i].len <= len,
        forall|i: int| 0 <= i < done.len() ==> (#[trigger] done[i]).counted(),
    ensures
        ({
            let end = after_all(ReadGroup::fresh(done.len() as usize, len), done);
            &&& end.remaining == 0
            &&& end.result() matches Ok(ReplyView::Read { n }) && {
                &&& (forall|i: int| 0 <= i < done.len() ==> !(#[trigger] done[i]).short())
                    ==> n == len
                &&& forall|i: int|
                    0 <= i < done.len() && (#[trigger] done[i]).short() ==> n <= done[i].end()
                &&& (exists|i: int| 0 <= i < done.len() && (#[trigger] done[i]).short())
                    ==> exists|i: int|
                    0 <= i < done.len() && (#[trigger] done[i]).short() && n == done[i].end()
            }
        }),
{
    lemma_group(len, done.len() as usize, done);
    lemma_no_error_without_one(ReadGroup::fresh(done.len() as usize, len), done);
    let end = after_all(ReadGroup::fresh(done.len() as usize, len), done);
    if exists|i: int| 0 <= i < done.len() && (#[trigger] done[i]).short() {
        let i = choose|i: int| 0 <= i < done.len() && (#[trigger] done[i]).short();
        assert(end.n_limit <= done[i].end() < len);
    }
}

/// Pieces that bring a count bring no error.
proof fn lemma_no_error_without_one(group: ReadGroup, done: Seq<DonePiece>)
    requires
        forall|i: int| 0 <= i < done.len() ==> (#[trigger] done[i]).counted(),
    ensures
        after_all(group, done).error == group.error,
    decreases done.len(),
{
    if done.len() > 0 {
        let before = done.drop_last();
        assert forall|i: int| 0 <= i < before.len() implies (#[trigger] before[i]).counted() by {
            assert(before[i] == done[i]);
        }
        assert(done[done.len() - 1].counted());
        lemma_no_error_without_one(group, before);
    }
}

/// A read with a piece that did not bring a count fails, whatever the others
/// brought: with the error of the first such piece to finish, or, where that
/// was answered with something else, with one that is no system error.
pub proof fn a_read_fails_with_its_first_error(len: usize, done: Seq<DonePiece>, first: int)
    requires
        done.len() <= usize::MAX,
        0 <= first < done.len(),
        !done[first].counted(),
        forall|i: int| 0 <= i < first ==> (#[trigger] done[i]).counted(),
    ensures
        after_all(ReadGroup::fresh(done.len() as usize, len), done).result() matches Err(e) && {
            match done[first].result {
                Err(brought) => e == brought,
                Ok(_) => e matches Error::Custom { kind, message } && kind is Other && message@
                    == "mismatched turbofile reply in read group"@,
            }
        },
    decreases done.len(),
{
    let group = ReadGroup::fresh(done.len() as usize, len);
    let upto = done.take(first + 1);
    assert(upto.drop_last() =~= done.take(first));
    assert forall|i: int| 0 <= i < first implies (#[trigger] done.take(first)[i]).counted() by {
        assert(done.take(first)[i] == done[i]);
    }
    lemma_no_error_without_one(group, done.take(first));
    assert(upto.last() == done[first]);
    let there = after_all(group, upto);
    the_first_error_stands(there, done.skip(first + 1));
    lemma_after_both(group, upto, done.skip(first + 1));
    assert(upto + done.skip(first + 1) =~= done);
}

/// Some pieces and then others are all of them in that order.
proof fn lemma_after_both(group: ReadGroup, a: Seq<DonePiece>, b: Seq<DonePiece>)
    ensures
        after_all(group, a + b) == after_all(after_all(group, a), b),
    decreases b.len(),
{
    if b.len() == 0 {
        assert(a + b =~= a);
    } else {
        lemma_after_both(group, a, b.drop_last());
        assert((a + b).drop_last() =~= a + b.drop_last());
        assert((a + b).last() == b.last());
    }
}

/// The piece `d` is the one number `i` of the read, and brought what a file of
/// `size` bytes holds of it.
pub open spec fn brought_of(
    d: DonePiece,
    size: int,
    pos: u64,
    len: usize,
    chunk: usize,
    i: int,
) -> bool {
    let p = piece(pos, len, chunk, i);
    &&& 0 <= i < piece_count(len as int, chunk as int)
    &&& d.start == p.start
    &&& d.len == p.len
    &&& d.result matches Ok(ReplyView::Read { n }) && n == (if p.pos >= size {
        0
    } else if p.pos + p.len <= size {
        p.len as int
    } else {
        size - p.pos
    })
}

/// The piece `d` is one of the read.
pub open spec fn is_piece(d: DonePiece, size: int, pos: u64, len: usize, chunk: usize) -> bool {
    exists|i: int| brought_of(d, size, pos, len, chunk, i)
}

/// The piece number `i` of the read is done.
pub open spec fn finished(
    done: Seq<DonePiece>,
    size: int,
    pos: u64,
    len: usize,
    chunk: usize,
    i: int,
) -> bool {
    exists|k: int|
        0 <= k < done.len() && brought_of(#[trigger] done[k], size, pos, len, chunk, i)
}

/// A read in pieces of a file of `size` bytes settles with as many bytes as the
/// file holds of its range, whatever the size of a piece and whatever order
/// they finish in: with just what one read of the whole range would bring.
pub proof fn a_read_in_pieces_counts_what_the_file_holds(
    size: int,
    pos: u64,
    len: usize,
    chunk: usize,
    done: Seq<DonePiece>,
)
    requires
        chunk > 0,
        len > 0,
        size >= 0,
        starts_fit(pos, len, chunk),
        1 <= done.len() <= usize::MAX,
        forall|k: int|
            0 <= k < done.len() ==> is_piece(#[trigger] done[k], size, pos, len, chunk),
        forall|i: int|
            0 <= i < piece_count(len as int, chunk as int) ==> #[trigger] finished(
                done,
                size,
                pos,
                len,
                chunk,
                i,
            ),
    ensures
        after_all(ReadGroup::fresh(done.len() as usize, len), done).result() matches Ok(
            ReplyView::Read { n },
        ) && n == (if pos >= size {
            0
        } else if pos + len <= size {
            len as int
        } else {
            size - pos
        }),
{
    assert forall|k: int| 0 <= k < done.len() implies {
        let d = #[trigger] done[k];
        &&& d.counted()
        &&& d.start + d.len <= len
        &&& d.short() ==> pos + len > size && d.end() >= size - pos && d.end() >= 0
    } by {
        assert(is_piece(done[k], size, pos, len, chunk));
        let i = choose|i: int| brought_of(done[k], size, pos, len, chunk, i);
        the_pieces_cover_the_read(pos, len, chunk, 0);
        assert(piece(pos, len, chunk, i).pos == pos + piece(pos, len, chunk, i).start);
    }
    a_read_settles_with_the_least_end_of_a_short_piece(len, done);
    if pos + len > size {
        let b = if pos >= size {
            0
        } else {
            size - pos
        };
        the_pieces_cover_the_read(pos, len, chunk, b);
        let i = b / chunk as int;
        assert(finished(done, size, pos, len, chunk, i));
        let k = choose|k: int|
            0 <= k < done.len() && brought_of(#[trigger] done[k], size, pos, len, chunk, i);
        assert(piece(pos, len, chunk, i).pos == pos + piece(pos, len, chunk, i).start);
        if pos >= size {
            vstd::arithmetic::div_mod::lemma_fundamental_div_mod_converse(0, chunk as int, 0, 0);
            assert(0 * chunk == 0) by (nonlinear_arith);
        }
        assert(done[k].short() && done[k].end() == b);
    }
}

/// The first piece to fail, in the order in which they finish, decides the
/// error; later ones do not replace it.
pub proof fn the_first_error_stands(group: ReadGroup, done: Seq<DonePiece>)
    requires
        group.error is Some,
    ensures
        after_all(group, done).error == group.error,
    decreases done.len(),
{
    if done.len() > 0 {
        the_first_error_stands(group, done.drop_last());
    }
}

} // verus!
