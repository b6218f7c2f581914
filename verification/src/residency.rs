//! Which pages of a file are in the page cache, asked through a mapping that
//! nothing ever reads: how long the mapping has to be, which ranges of it to
//! ask about, and what the answers mean.

use vstd::arithmetic::div_mod::{
    lemma_fundamental_div_mod, lemma_mod_multiples_basic, lemma_small_mod, lemma_sub_mod_noop,
};
use vstd::prelude::*;

verus! {

/// Address space reserved past the file's current end, so a file that is
/// being appended to keeps being served without a fresh mapping per step.
pub const HEADROOM: u64 = 0x10_0000;

/// The flag of a page that is resident.
pub const INCORE: u8 = 1;

/// Pages asked about per call; larger ranges take several.
pub const FLAGS_PER_CALL: usize = 256;

/// The page size that the system reports, and 1 if it reports none.
pub fn page_size(reported: isize) -> (page: usize)
    ensures
        page == (if reported < 1 {
            1
        } else {
            reported as usize
        }),
        page >= 1,
{
    if reported < 1 {
        1
    } else {
        reported as usize
    }
}

/// The constants are those of the system and of the scan: a flag in the lowest
/// bit, a headroom of a mebibyte, and as many pages per call as there are flags
/// for.
pub proof fn the_constants_of_a_scan()
    ensures
        INCORE == 1,
        HEADROOM == 1024 * 1024,
        FLAGS_PER_CALL == 256,
{
}

/// The least multiple of `page` that is not below `n`.
pub open spec fn round_up(n: int, page: int) -> int {
    (n + page - 1) / page * page
}

/// The greatest multiple of `page` that is not above `n`.
pub open spec fn round_down(n: int, page: int) -> int {
    n / page * page
}

/// Rounding gives the nearest multiples on either side.
pub proof fn rounding_is_to_the_nearest_page(n: int, page: int)
    requires
        page >= 1,
    ensures
        n <= round_up(n, page) < n + page,
        n - page < round_down(n, page) <= n,
        round_up(n, page) % page == 0,
        round_down(n, page) % page == 0,
{
    lemma_fundamental_div_mod(n, page);
    lemma_fundamental_div_mod(n + page - 1, page);
    lemma_mod_multiples_basic(n / page, page);
    lemma_mod_multiples_basic((n + page - 1) / page, page);
    assert(page * (n / page) == n / page * page) by (nonlinear_arith);
    assert(page * ((n + page - 1) / page) == (n + page - 1) / page * page) by (nonlinear_arith);
}

/// The length of a mapping that covers a file of `size` bytes, whole pages of
/// it, plus the headroom; `None` when no address space has that length.
pub open spec fn view_len_spec(size: u64, page: usize) -> Option<usize> {
    let len = round_up(size as int, page as int) + HEADROOM;
    if size + page - 1 > u64::MAX || len > u64::MAX || len > usize::MAX {
        None
    } else {
        Some(len as usize)
    }
}

/// With pages no larger than the headroom, a mapping has a length exactly when
/// the file's pages and the headroom behind them have one, and that is it.
pub proof fn a_mapping_has_a_length_if_there_is_one(size: u64, page: usize)
    requires
        1 <= page <= HEADROOM,
    ensures
        view_len_spec(size, page) is Some <==> round_up(size as int, page as int) + HEADROOM
            <= usize::MAX && round_up(size as int, page as int) + HEADROOM <= u64::MAX,
        view_len_spec(size, page) matches Some(len) ==> size + HEADROOM <= len < size + page
            + HEADROOM,
{
    rounding_is_to_the_nearest_page(size as int, page as int);
}

/// Mapping length that covers a file of `size` bytes plus headroom.
pub fn view_len(size: u64, page: usize) -> (len: Option<usize>)
    requires
        page >= 1,
    ensures
        len == view_len_spec(size, page),
        len matches Some(l) ==> size + HEADROOM <= l,
{
    let page: u64 = page as u64;
    proof {
        rounding_is_to_the_nearest_page(size as int, page as int);
    }
    let above: u64 = match size.checked_add(page - 1) {
        Some(above) => above,
        None => {
            return None;
        },
    };
    proof {
        lemma_fundamental_div_mod(above as int, page as int);
        assert(above / page * page <= above) by (nonlinear_arith)
            requires
                above == page * (above / page) + above % page,
                above % page >= 0,
        ;
    }
    let rounded: u64 = above / page * page;
    match rounded.checked_add(HEADROOM) {
        None => None,
        Some(len) => if len <= usize::MAX as u64 {
            Some(len as usize)
        } else {
            None
        },
    }
}

/// A mapping of the first `len` bytes of a file.
#[derive(Debug, Clone, Copy, PartialEq, Eq, Structural)]
pub struct Mapping {
    pub addr: usize,
    pub len: usize,
}

impl Mapping {
    /// The mapping's whole pages lie in the address space.
    pub open spec fn wf(self, page: usize) -> bool {
        self.addr + round_up(self.len as int, page as int) <= usize::MAX
    }

    /// Whether the mapping's whole pages lie in the address space.
    pub fn fits(&self, page: usize) -> (yes: bool)
        requires
            page >= 1,
        ensures
            yes == self.wf(page),
    {
        proof {
            lemma_whole_pages(self.len as int, page as int);
        }
        let whole: usize = self.len / page * page;
        let last: usize = if whole == self.len {
            whole
        } else if page > usize::MAX - whole {
            return false;
        } else {
            whole + page
        };
        self.addr <= usize::MAX - last
    }
}

/// What it takes to have a mapping that reaches far enough.
#[derive(Debug, Clone, Copy, PartialEq, Eq, Structural)]
pub enum ViewStep {
    /// There is one.
    Ready,
    /// There cannot be one.
    Refuse,
    /// Make one of that length and report by [`Cache::mapped`].
    Remap { len: usize },
}

/// The mapping of a file, if it has one.
#[derive(Debug, Clone, Copy, PartialEq, Eq, Structural)]
pub struct Cache {
    pub view: Option<Mapping>,
}

impl Cache {
    /// Whether the mapping reaches `end`.
    pub open spec fn covers(self, end: u64) -> bool {
        self.view matches Some(v) && end <= v.len
    }

    /// No mapping yet.
    pub fn new() -> (cache: Cache)
        ensures
            cache.view is None,
    {
        Cache { view: None }
    }

    /// Whether the mapping reaches `end`.
    pub fn view_covers(&self, end: u64) -> (yes: bool)
        ensures
            yes == self.covers(end),
    {
        match self.view {
            Some(v) => end <= v.len as u64,
            None => false,
        }
    }

    /// How to make the mapping reach `end` of a file of `size` bytes, `None`
    /// for one that is not a regular file. A new mapping is made only when the
    /// file itself has grown past the current one.
    pub open spec fn reach(self, end: u64, size: Option<u64>, page: usize) -> ViewStep {
        if self.covers(end) {
            ViewStep::Ready
        } else {
            match size {
                None => ViewStep::Refuse,
                Some(size) => match view_len_spec(size, page) {
                    None => ViewStep::Refuse,
                    Some(len) => if self.view matches Some(v) && v.len >= len {
                        ViewStep::Refuse
                    } else {
                        ViewStep::Remap { len }
                    },
                },
            }
        }
    }

    /// How to make the mapping reach `end`. The size matters only where the
    /// mapping does not reach it yet.
    pub fn ensure_view(&self, end: u64, size: Option<u64>, page: usize) -> (step: ViewStep)
        requires
            page >= 1,
        ensures
            step == self.reach(end, size, page),
    {
        if self.view_covers(end) {
            return ViewStep::Ready;
        }
        let size: u64 = match size {
            Some(size) => size,
            None => {
                return ViewStep::Refuse;
            },
        };
        match view_len(size, page) {
            None => ViewStep::Refuse,
            Some(len) => {
                if let Some(v) = self.view {
                    if v.len >= len {
                        return ViewStep::Refuse;
                    }
                }
                ViewStep::Remap { len }
            },
        }
    }

    /// What becomes of the mapping, and what is told, with the one that was
    /// asked for or without it.
    pub open spec fn takes(
        self,
        new: Self,
        mapping: Option<Mapping>,
        end: u64,
        outcome: (bool, Option<Mapping>),
    ) -> bool {
        match mapping {
            None => new == self && outcome == (false, None::<Mapping>),
            Some(m) => new.view == Some(m) && outcome == (new.covers(end), self.view),
        }
    }

    /// The mapping that was asked for was made, or `None` if it could not be.
    /// Returns whether `end` is covered now, and the mapping to take down.
    pub fn mapped(&mut self, mapping: Option<Mapping>, end: u64) -> (outcome: (
        bool,
        Option<Mapping>,
    ))
        ensures
            match mapping {
                None => *final(self) == *old(self) && outcome == (false, None::<Mapping>),
                Some(m) => {
                    &&& final(self).view == Some(m)
                    &&& outcome == (final(self).covers(end), old(self).view)
                },
            },
            old(self).takes(*final(self), mapping, end, outcome),
    {
        match mapping {
            None => (false, None),
            Some(m) => {
                let before = self.view;
                self.view = Some(m);
                (self.view_covers(end), before)
            },
        }
    }

    /// Whether reads of a file of `size` bytes can ever be served: there is a
    /// mapping, or one could be made.
    pub fn can_serve(&self, size: Option<u64>, page: usize) -> (step: ViewStep)
        requires
            page >= 1,
        ensures
            step == (if self.view is Some {
                ViewStep::Ready
            } else {
                self.reach(0, size, page)
            }),
            step == self.serves(size, page),
    {
        if self.view.is_some() {
            ViewStep::Ready
        } else {
            self.ensure_view(0, size, page)
        }
    }
}

impl Cache {
    /// Whether reads of a file of `size` bytes can ever be served.
    pub open spec fn serves(self, size: Option<u64>, page: usize) -> ViewStep {
        if self.view is Some {
            ViewStep::Ready
        } else {
            self.reach(0, size, page)
        }
    }
}

/// No mapping is lost and none is taken down that is still used: a new one
/// takes the place of the old one, which is handed back to be taken down, and
/// is told to be far enough exactly when it reaches the end that was asked for;
/// without a new one the old one stays.
pub proof fn a_mapping_is_taken_down_when_it_is_replaced(
    cache: Cache,
    new: Cache,
    mapping: Option<Mapping>,
    end: u64,
    outcome: (bool, Option<Mapping>),
)
    requires
        cache.takes(new, mapping, end, outcome),
    ensures
        mapping is Some ==> new.view == mapping && outcome.1 == cache.view,
        mapping is None ==> new == cache && outcome.1 is None,
        outcome.0 <==> (mapping matches Some(m) && end <= m.len),
{
}

/// Reads of a file that has a mapping can be served; without one they can if a
/// mapping can be made, which fails only for what is no regular file and for a
/// size that no address space holds.
pub proof fn a_regular_file_can_be_served(cache: Cache, size: Option<u64>, page: usize)
    requires
        page >= 1,
    ensures
        cache.serves(size, page) is Ready <==> cache.view is Some,
        cache.serves(size, page) is Refuse <==> cache.view is None && (size is None
            || view_len_spec(size->0, page) is None),
        cache.serves(size, page) matches ViewStep::Remap { len } ==> size is Some && len >= size->0,
        size matches Some(s) && s + page + HEADROOM <= usize::MAX ==> !(cache.serves(size, page)
            is Refuse),
{
    if let Some(s) = size {
        rounding_is_to_the_nearest_page(s as int, page as int);
    }
}

/// Growing by less than the headroom needs no new mapping: one made for a file
/// of `size` bytes covers every end up to `HEADROOM` behind it.
pub proof fn a_mapping_outlasts_growth_within_the_headroom(
    size: u64,
    page: usize,
    addr: usize,
    len: usize,
    end: u64,
)
    requires
        page >= 1,
        view_len_spec(size, page) == Some(len),
        end <= size + HEADROOM,
    ensures
        (Cache { view: Some(Mapping { addr, len }) }).covers(end),
{
    rounding_is_to_the_nearest_page(size as int, page as int);
}

/// The end of the range `[pos, pos + len)`, if offsets go that far.
pub fn range_end(pos: u64, len: usize) -> (end: Option<u64>)
    ensures
        end == (if pos + len <= u64::MAX {
            Some((pos + len) as u64)
        } else {
            None
        }),
{
    pos.checked_add(len as u64)
}

/// The pages of a mapping still to be asked about.
#[derive(Debug, Clone, Copy, PartialEq, Eq, Structural)]
pub struct Scan {
    pub page: usize,
    pub off: usize,
    pub last: usize,
}

/// What an answer of the system leads to.
#[derive(Debug, Clone, Copy, PartialEq, Eq, Structural)]
pub enum ScanStep {
    /// All pages asked about are resident; go on with the rest.
    More,
    /// Nothing is known.
    Unknown,
    /// The page that begins at this offset is not resident.
    Cold { at: u64 },
}

/// How many of the first `n` flags say resident before one does not.
pub open spec fn warm(flags: Seq<u8>, n: nat) -> nat
    decreases n,
{
    if n == 0 {
        0
    } else {
        let k = warm(flags, (n - 1) as nat);
        if k == n - 1 && flags[n - 1] & INCORE != 0 {
            n
        } else {
            k
        }
    }
}

/// The flags before that one all say resident, and that one does not.
pub proof fn warm_flags_come_first(flags: Seq<u8>, n: nat)
    ensures
        warm(flags, n) <= n,
        forall|i: int| 0 <= i < warm(flags, n) ==> #[trigger] flags[i] & INCORE != 0,
        warm(flags, n) < n ==> flags[warm(flags, n) as int] & INCORE == 0,
    decreases n,
{
    if n > 0 {
        warm_flags_come_first(flags, (n - 1) as nat);
    }
}

impl Scan {
    /// Whole pages of a size that a call can be asked about.
    pub open spec fn wf(self) -> bool {
        &&& self.page >= 1
        &&& self.page * FLAGS_PER_CALL <= usize::MAX
        &&& self.off <= self.last
        &&& self.off as int % self.page as int == 0
        &&& self.last as int % self.page as int == 0
    }

    /// The length of the next range to ask about.
    pub open spec fn chunk(self) -> int {
        if self.last - self.off < self.page * FLAGS_PER_CALL {
            self.last - self.off
        } else {
            self.page * FLAGS_PER_CALL
        }
    }

    /// How many pages the next range has.
    pub open spec fn pages(self) -> int {
        self.chunk() / self.page as int
    }

    /// The pages that the range `[pos, end)` touches.
    pub fn new(pos: usize, end: usize, page: usize) -> (scan: Scan)
        requires
            page >= 1,
            page * FLAGS_PER_CALL <= usize::MAX,
            pos <= end,
            round_up(end as int, page as int) <= usize::MAX,
        ensures
            scan.wf(),
            scan.page == page,
            scan.off == round_down(pos as int, page as int),
            scan.last == round_up(end as int, page as int),
            scan.off <= pos,
            end <= scan.last,
    {
        proof {
            rounding_is_to_the_nearest_page(pos as int, page as int);
            rounding_is_to_the_nearest_page(end as int, page as int);
            lemma_fundamental_div_mod(end as int, page as int);
            lemma_whole_pages(end as int, page as int);
        }
        let off: usize = pos / page * page;
        let whole: usize = end / page * page;
        let last: usize = if whole == end {
            whole
        } else {
            whole + page
        };
        Scan { page, off, last }
    }

    /// The next range to ask about, as offset and length, or `None` when every
    /// page was resident.
    pub fn next(&self) -> (range: Option<(usize, usize)>)
        requires
            self.wf(),
        ensures
            range == (if self.off < self.last {
                Some((self.off, self.chunk() as usize))
            } else {
                None
            }),
            range matches Some((off, len)) ==> {
                &&& 0 < len <= self.last - off
                &&& len as int % self.page as int == 0
                &&& self.pages() <= FLAGS_PER_CALL
            },
    {
        if self.off >= self.last {
            return None;
        }
        proof {
            self.lemma_chunk();
        }
        let rest: usize = self.last - self.off;
        let most: usize = self.page * FLAGS_PER_CALL;
        Some(
            (
                self.off,
                if rest < most {
                    rest
                } else {
                    most
                },
            ),
        )
    }

    /// The next range is whole pages, at least one and no more than a call
    /// takes.
    proof fn lemma_chunk(self)
        requires
            self.wf(),
            self.off < self.last,
        ensures
            0 < self.chunk() <= self.last - self.off,
            self.chunk() % self.page as int == 0,
            self.chunk() == self.pages() * self.page,
            1 <= self.pages() <= FLAGS_PER_CALL,
    {
        let page = self.page as int;
        let rest = self.last - self.off;
        lemma_sub_mod_noop(self.last as int, self.off as int, page);
        lemma_small_mod(0, page as nat);
        assert(rest % page == 0);
        lemma_mod_multiples_basic(FLAGS_PER_CALL as int, page);
        let chunk = self.chunk();
        assert(page * FLAGS_PER_CALL == FLAGS_PER_CALL * page) by (nonlinear_arith);
        assert(chunk % page == 0);
        lemma_fundamental_div_mod(chunk, page);
        let k = chunk / page;
        assert(chunk == k * page) by (nonlinear_arith)
            requires
                chunk == page * k + chunk % page,
                chunk % page == 0,
        ;
        assert(1 <= k <= FLAGS_PER_CALL) by (nonlinear_arith)
            requires
                chunk == k * page,
                0 < chunk <= page * FLAGS_PER_CALL,
                page >= 1,
        ;
    }

    /// The system's answer on the range that [`Scan::next`] named: a return
    /// code, and a flag for each of its pages.
    pub fn answered(&mut self, rc: i32, flags: &[u8]) -> (step: ScanStep)
        requires
            old(self).wf(),
            old(self).off < old(self).last,
            old(self).pages() <= flags@.len(),
        ensures
            final(self).wf(),
            ({
                let pages = old(self).pages();
                let resident = warm(flags@, pages as nat);
                if rc != 0 {
                    step == ScanStep::Unknown && *final(self) == *old(self)
                } else if resident < pages {
                    &&& *final(self) == *old(self)
                    &&& step == (ScanStep::Cold {
                        at: (old(self).off + resident * old(self).page) as u64,
                    })
                    &&& old(self).off + resident * old(self).page < old(self).last
                } else {
                    &&& step == ScanStep::More
                    &&& *final(self) == (Scan {
                        off: (old(self).off + old(self).chunk()) as usize,
                        ..*old(self)
                    })
                }
            }),
    {
        if rc != 0 {
            return ScanStep::Unknown;
        }
        proof {
            self.lemma_chunk();
        }
        let rest: usize = self.last - self.off;
        let most: usize = self.page * FLAGS_PER_CALL;
        let chunk: usize = if rest < most {
            rest
        } else {
            most
        };
        let pages: usize = chunk / self.page;
        let ghost before = *self;
        let mut i: usize = 0;
        while i < pages
            invariant
                *self == before,
                before == *old(self),
                rc == 0,
                before.wf(),
                before.off < before.last,
                chunk == before.chunk(),
                pages == before.pages(),
                chunk == pages * before.page,
                pages <= flags@.len(),
                0 <= i <= pages,
                warm(flags@, i as nat) == i,
                chunk <= before.last - before.off,
            decreases pages - i,
        {
            if flags[i] & INCORE == 0 {
                proof {
                    lemma_warm_stops(flags@, i as nat, pages as nat);
                    assert(i * before.page < pages * before.page) by (nonlinear_arith)
                        requires
                            i < pages,
                            before.page >= 1,
                    ;
                    assert(0 <= i * before.page) by (nonlinear_arith);
                }
                return ScanStep::Cold { at: (self.off + i * self.page) as u64 };
            }
            i = i + 1;
        }
        self.off = self.off + chunk;
        proof {
            let page = before.page as int;
            before.lemma_chunk();
            vstd::arithmetic::div_mod::lemma_add_mod_noop(before.off as int, chunk as int, page);
            lemma_small_mod(0, page as nat);
        }
        ScanStep::More
    }
}

/// A range of whole pages up to `n` is `n` itself, or ends a page short of the
/// next multiple.
proof fn lemma_whole_pages(n: int, page: int)
    requires
        n >= 0,
        page >= 1,
    ensures
        round_up(n, page) == if round_down(n, page) == n {
            n
        } else {
            round_down(n, page) + page
        },
        round_down(n, page) <= n,
        round_down(n, page) + page > n,
{
    let q = n / page;
    let r = n % page;
    lemma_fundamental_div_mod(n, page);
    assert(page * q == q * page) by (nonlinear_arith);
    if r == 0 {
        vstd::arithmetic::div_mod::lemma_fundamental_div_mod_converse(n + page - 1, page, q, page - 1);
    } else {
        assert(n + page - 1 == page * (q + 1) + (r - 1)) by (nonlinear_arith)
            requires
                n == page * q + r,
        ;
        vstd::arithmetic::div_mod::lemma_fundamental_div_mod_converse(
            n + page - 1,
            page,
            q + 1,
            r - 1,
        );
        assert((q + 1) * page == q * page + page) by (nonlinear_arith);
    }
}

/// The count of resident pages stops at the first that is not.
proof fn lemma_warm_stops(flags: Seq<u8>, i: nat, n: nat)
    requires
        i < n,
        warm(flags, i) == i,
        flags[i as int] & INCORE == 0,
    ensures
        warm(flags, n) == i,
    decreases n,
{
    if n > i + 1 {
        lemma_warm_stops(flags, i, (n - 1) as nat);
    }
}

impl Scan {
    /// The scan behind its next range.
    pub open spec fn advanced(self) -> Scan {
        Scan { off: (self.off + self.chunk()) as usize, ..self }
    }

    /// Whether the answers, one after the other, lead through the whole scan
    /// without a page that is not resident.
    pub open spec fn walks(self, answers: Seq<Seq<u8>>) -> bool
        decreases answers.len(),
    {
        if answers.len() == 0 {
            self.off >= self.last
        } else {
            &&& self.off < self.last
            &&& warm(answers[0], self.pages() as nat) == self.pages()
            &&& self.advanced().walks(answers.skip(1))
        }
    }

    /// The flag that the answers gave for the page `p` of the scan.
    pub open spec fn flag(self, answers: Seq<Seq<u8>>, p: int) -> u8
        decreases answers.len(),
    {
        if answers.len() == 0 {
            0
        } else if p < self.pages() {
            answers[0][p]
        } else {
            self.advanced().flag(answers.skip(1), p - self.pages())
        }
    }
}

/// A scan that comes to its end has seen the flag of every one of its pages,
/// and each said resident.
pub proof fn a_finished_scan_saw_every_page_resident(scan: Scan, answers: Seq<Seq<u8>>)
    requires
        scan.wf(),
        scan.walks(answers),
    ensures
        forall|p: int|
            0 <= p < (scan.last - scan.off) / scan.page as int ==> #[trigger] scan.flag(answers, p)
                & INCORE != 0,
    decreases answers.len(),
{
    let page = scan.page as int;
    if answers.len() == 0 {
        lemma_small_mod(0, page as nat);
        assert(0int / page == 0) by (nonlinear_arith)
            requires
                page >= 1,
        ;
    } else {
        scan.lemma_chunk();
        let next = scan.advanced();
        let rest = scan.last - scan.off;
        vstd::arithmetic::div_mod::lemma_add_mod_noop(scan.off as int, scan.chunk(), page);
        lemma_small_mod(0, page as nat);
        assert(next.wf());
        a_finished_scan_saw_every_page_resident(next, answers.skip(1));
        warm_flags_come_first(answers[0], scan.pages() as nat);
        assert((rest - scan.chunk()) / page == rest / page - scan.pages()) by {
            vstd::arithmetic::div_mod::lemma_hoist_over_denominator(
                rest - scan.chunk(),
                scan.pages(),
                page as nat,
            );
            assert(scan.pages() * page == scan.chunk());
        }
        assert forall|p: int| 0 <= p < rest / page implies #[trigger] scan.flag(answers, p) & INCORE
            != 0 by {
            if p >= scan.pages() {
                assert(next.flag(answers.skip(1), p - scan.pages()) & INCORE != 0);
            }
        }
    }
}

/// A check whether a range of a file is resident, as far as it has come.
#[derive(Debug, Clone, Copy, PartialEq, Eq, Structural)]
pub enum Check {
    /// The mapping does not reach the end of the range: the size is asked for.
    Sizing { pos: u64, end: u64 },
    /// A mapping of that length is being made.
    Remapping { pos: u64, end: u64, len: usize },
    /// The system is asked about pages.
    Asking { scan: Scan },
    /// A page is not resident: the size is asked for.
    Cold { at: u64 },
}

/// What a check asks of its caller.
#[derive(Debug, Clone, Copy, PartialEq, Eq, Structural)]
pub enum Question {
    /// The size of the file, `None` if it is not a regular one.
    Size,
    /// A mapping of the file's first bytes.
    Remap { len: usize },
    /// Which of the pages of this range of memory are resident.
    Pages { addr: usize, len: usize },
}

/// A check goes on with a question, or ends with its verdict.
#[derive(Debug, Clone, Copy, PartialEq, Eq, Structural)]
pub enum Verdict {
    Ask(Check, Question),
    Resident(bool),
}

/// The check whose scan stands at `scan`: asking about its next range, or done
/// because every page was resident.
pub open spec fn asks(scan: Scan, mapping: Mapping) -> Verdict {
    if scan.off < scan.last {
        Verdict::Ask(
            Check::Asking { scan },
            Question::Pages {
                addr: (mapping.addr + scan.off) as usize,
                len: scan.chunk() as usize,
            },
        )
    } else {
        Verdict::Resident(true)
    }
}

/// The scan of the pages that hold the range `[pos, end)`.
pub open spec fn scan_of(pos: u64, end: u64, page: usize) -> Scan {
    Scan {
        page,
        off: round_down(pos as int, page as int) as usize,
        last: round_up(end as int, page as int) as usize,
    }
}

impl Check {
    /// The ranges of the check exist.
    pub open spec fn wf(self, cache: Cache, page: usize) -> bool {
        match self {
            Check::Sizing { pos, end } => pos <= end,
            Check::Remapping { pos, end, .. } => pos <= end,
            Check::Asking { scan } => {
                &&& scan.wf()
                &&& scan.page == page
                &&& scan.off < scan.last
                &&& cache.view matches Some(m) && m.wf(page) && scan.last <= round_up(
                    m.len as int,
                    page as int,
                )
            },
            Check::Cold { .. } => true,
        }
    }
}

impl Verdict {
    pub open spec fn wf(self, cache: Cache, page: usize) -> bool {
        self matches Verdict::Ask(check, _) ==> check.wf(cache, page)
    }
}

impl Cache {
    /// The mapping, if there is one, is in order.
    pub open spec fn wf(self, page: usize) -> bool {
        &&& page >= 1
        &&& page * FLAGS_PER_CALL <= usize::MAX
        &&& self.view matches Some(m) ==> m.wf(page)
    }

    /// The check of `[pos, end)` once the mapping reaches `end`, or the end of
    /// the check if it does not.
    pub open spec fn scans(self, pos: u64, end: u64, page: usize) -> Verdict {
        if self.covers(end) {
            asks(scan_of(pos, end, page), self.view->0)
        } else {
            Verdict::Resident(false)
        }
    }

    /// How the check of the `len` bytes from `pos` on begins.
    pub open spec fn begins(self, pos: u64, len: usize, page: usize) -> Verdict {
        if pos + len > u64::MAX {
            Verdict::Resident(false)
        } else {
            let end = (pos + len) as u64;
            if self.covers(end) {
                self.scans(pos, end, page)
            } else {
                Verdict::Ask(Check::Sizing { pos, end }, Question::Size)
            }
        }
    }

    /// How a check goes on with the size that it asked for.
    pub open spec fn with_size(self, check: Check, size: Option<u64>, page: usize) -> Verdict {
        match check {
            Check::Sizing { pos, end } => match self.reach(end, size, page) {
                ViewStep::Ready => self.scans(pos, end, page),
                ViewStep::Refuse => Verdict::Resident(false),
                ViewStep::Remap { len } => Verdict::Ask(
                    Check::Remapping { pos, end, len },
                    Question::Remap { len },
                ),
            },
            Check::Cold { at } => Verdict::Resident(size matches Some(s) && s <= at),
            _ => Verdict::Resident(false),
        }
    }

    /// How a check goes on with the answer on the pages that it asked about.
    pub open spec fn with_pages(self, check: Check, rc: i32, flags: Seq<u8>, page: usize) -> Verdict {
        let scan = check->scan;
        let pages = scan.pages();
        let resident = warm(flags, pages as nat);
        if rc != 0 {
            Verdict::Resident(false)
        } else if resident < pages {
            Verdict::Ask(Check::Cold { at: (scan.off + resident * page) as u64 }, Question::Size)
        } else {
            asks(scan.advanced(), self.view->0)
        }
    }

    /// Begin to check whether the `len` bytes from `pos` on are resident.
    pub fn check(&self, pos: u64, len: usize, page: usize) -> (verdict: Verdict)
        requires
            self.wf(page),
        ensures
            verdict.wf(*self, page),
            verdict == (if pos + len > u64::MAX {
                Verdict::Resident(false)
            } else {
                let end = (pos + len) as u64;
                if self.covers(end) {
                    self.scans(pos, end, page)
                } else {
                    Verdict::Ask(Check::Sizing { pos, end }, Question::Size)
                }
            }),
            verdict == self.begins(pos, len, page),
    {
        match range_end(pos, len) {
            None => Verdict::Resident(false),
            Some(end) => if self.view_covers(end) {
                self.scan(pos, end, page)
            } else {
                Verdict::Ask(Check::Sizing { pos, end }, Question::Size)
            },
        }
    }

    /// Scan `[pos, end)` if the mapping reaches `end`.
    fn scan(&self, pos: u64, end: u64, page: usize) -> (verdict: Verdict)
        requires
            self.wf(page),
            pos <= end,
        ensures
            verdict.wf(*self, page),
            verdict == self.scans(pos, end, page),
    {
        match self.view {
            None => Verdict::Resident(false),
            Some(m) => {
                if end > m.len as u64 {
                    return Verdict::Resident(false);
                }
                proof {
                    lemma_round_up_grows(end as int, m.len as int, page as int);
                }
                let scan = Scan::new(pos as usize, end as usize, page);
                Self::ask(scan, m)
            },
        }
    }

    /// Ask about the next range of a scan.
    fn ask(scan: Scan, mapping: Mapping) -> (verdict: Verdict)
        requires
            scan.wf(),
            mapping.wf(scan.page),
            scan.last <= round_up(mapping.len as int, scan.page as int),
        ensures
            verdict.wf(Cache { view: Some(mapping) }, scan.page),
            verdict == asks(scan, mapping),
    {
        match scan.next() {
            None => Verdict::Resident(true),
            Some((off, len)) => Verdict::Ask(
                Check::Asking { scan },
                Question::Pages { addr: mapping.addr + off, len },
            ),
        }
    }

    /// The size that a check asked for. A page that is not resident does no
    /// harm at or past the end of the file.
    pub fn learned_size(&self, check: Check, size: Option<u64>, page: usize) -> (verdict: Verdict)
        requires
            self.wf(page),
            check.wf(*self, page),
            check is Sizing || check is Cold,
        ensures
            verdict.wf(*self, page),
            verdict == (match check {
                Check::Sizing { pos, end } => match self.reach(end, size, page) {
                    ViewStep::Ready => self.scans(pos, end, page),
                    ViewStep::Refuse => Verdict::Resident(false),
                    ViewStep::Remap { len } => Verdict::Ask(
                        Check::Remapping { pos, end, len },
                        Question::Remap { len },
                    ),
                },
                Check::Cold { at } => Verdict::Resident(size matches Some(s) && s <= at),
                _ => Verdict::Resident(false),
            }),
            verdict == self.with_size(check, size, page),
    {
        match check {
            Check::Sizing { pos, end } => match self.ensure_view(end, size, page) {
                ViewStep::Ready => self.scan(pos, end, page),
                ViewStep::Refuse => Verdict::Resident(false),
                ViewStep::Remap { len } => Verdict::Ask(
                    Check::Remapping { pos, end, len },
                    Question::Remap { len },
                ),
            },
            Check::Cold { at } => Verdict::Resident(cold_is_past_end(size, at)),
            _ => Verdict::Resident(false),
        }
    }

    /// The mapping that a check asked for, or `None` if it could not be made.
    /// Returns also the mapping to take down.
    pub fn learned_mapping(&mut self, check: Check, mapping: Option<Mapping>, page: usize) -> (
    outcome: (Verdict, Option<Mapping>))
        requires
            old(self).wf(page),
            check.wf(*old(self), page),
            check matches Check::Remapping { len, .. } && (mapping matches Some(m) ==> m.wf(page)
                && m.len == len),
        ensures
            final(self).wf(page),
            outcome.0.wf(*final(self), page),
            match mapping {
                None => {
                    &&& *final(self) == *old(self)
                    &&& outcome == (Verdict::Resident(false), None::<Mapping>)
                },
                Some(m) => {
                    &&& final(self).view == Some(m)
                    &&& outcome.1 == old(self).view
                    &&& outcome.0 == final(self).scans(
                        check->Remapping_pos,
                        check->Remapping_end,
                        page,
                    )
                },
            },
            outcome.0 == final(self).with_mapping(check, mapping, page),
            outcome.1 == (if mapping is None {
                None
            } else {
                old(self).view
            }),
    {
        match check {
            Check::Remapping { pos, end, .. } => {
                let (covered, before) = self.mapped(mapping, end);
                if covered {
                    (self.scan(pos, end, page), before)
                } else {
                    (Verdict::Resident(false), before)
                }
            },
            _ => (Verdict::Resident(false), None),
        }
    }

    /// The system's answer on the pages that a check asked about.
    pub fn learned_pages(&self, check: Check, rc: i32, flags: &[u8], page: usize) -> (verdict:
        Verdict)
        requires
            self.wf(page),
            check.wf(*self, page),
            check matches Check::Asking { scan } && scan.pages() <= flags@.len(),
        ensures
            verdict.wf(*self, page),
            ({
                let scan = check->scan;
                let pages = scan.pages();
                let resident = warm(flags@, pages as nat);
                verdict == (if rc != 0 {
                    Verdict::Resident(false)
                } else if resident < pages {
                    Verdict::Ask(
                        Check::Cold { at: (scan.off + resident * page) as u64 },
                        Question::Size,
                    )
                } else {
                    asks(scan.advanced(), self.view->0)
                })
            }),
            verdict == self.with_pages(check, rc, flags@, page),
    {
        match (check, self.view) {
            (Check::Asking { scan }, Some(mapping)) => {
                let mut scan = scan;
                match scan.answered(rc, flags) {
                    ScanStep::Unknown => Verdict::Resident(false),
                    ScanStep::Cold { at } => Verdict::Ask(Check::Cold { at }, Question::Size),
                    ScanStep::More => Self::ask(scan, mapping),
                }
            },
            _ => Verdict::Resident(false),
        }
    }
}

/// What a check comes to with the answers on the pages that it asks about, one
/// after the other.
pub open spec fn learned(cache: Cache, verdict: Verdict, answers: Seq<Seq<u8>>, page: usize) -> Verdict
    decreases answers.len(),
{
    match verdict {
        Verdict::Ask(Check::Asking { scan }, _) if answers.len() > 0 => learned(
            cache,
            cache.with_pages(Check::Asking { scan }, 0, answers[0], page),
            answers.skip(1),
            page,
        ),
        _ => verdict,
    }
}

/// A check asks about its pages from the first to the last, each once: its
/// first question begins with the page that holds its first byte, each further
/// one where the one before ended, and all of them lie in the mapping, whole
/// pages and no more than a call takes.
pub proof fn a_check_asks_about_its_pages_in_turn(
    cache: Cache,
    pos: u64,
    len: usize,
    page: usize,
    scan: Scan,
    question: Question,
    flags: Seq<u8>,
)
    requires
        cache.wf(page),
        scan.wf(),
        scan.page == page,
        cache.view is Some,
        scan.last <= round_up(cache.view->0.len as int, page as int),
        asks(scan, cache.view->0) == Verdict::Ask(Check::Asking { scan }, question),
    ensures
        question matches Question::Pages { addr, len: asked } && {
            let m = cache.view->0;
            &&& addr == m.addr + scan.off
            &&& 0 < asked <= scan.last - scan.off
            &&& asked as int % page as int == 0
            &&& asked <= 256 * page
            &&& cache.with_pages(Check::Asking { scan }, 0, flags, page) matches Verdict::Ask(
                Check::Asking { scan: next },
                more,
            ) ==> {
                &&& more matches Question::Pages { addr: a, .. } && a == addr + asked
                &&& next.last == scan.last
            }
            &&& cache.with_pages(Check::Asking { scan }, 0, flags, page) == Verdict::Resident(true)
                ==> scan.off + asked == scan.last
        },
        pos + len <= u64::MAX && cache.begins(pos, len, page) == Verdict::Ask(
            Check::Asking { scan },
            question,
        ) ==> scan.off <= pos < scan.off + page && pos + len <= scan.last < pos + len + page,
{
    scan.lemma_chunk();
    rounding_is_to_the_nearest_page(pos as int, page as int);
    if pos + len <= u64::MAX {
        rounding_is_to_the_nearest_page(pos + len, page as int);
        if cache.covers((pos + len) as u64) {
            lemma_round_up_grows(pos + len, cache.view->0.len as int, page as int);
        }
    }
    assert(page * FLAGS_PER_CALL == 256 * page) by (nonlinear_arith)
        requires
            FLAGS_PER_CALL == 256,
    ;
}

/// A range is found not to be resident for a reason only: its end has no
/// offset, what it is of is no regular file, no mapping reaches it, the system
/// does not answer, or a page of it that holds bytes of the file is not
/// resident. A page at or past the end of the file does no harm.
pub proof fn a_range_is_not_resident_for_a_reason(
    cache: Cache,
    pos: u64,
    len: usize,
    page: usize,
    end: u64,
    size: Option<u64>,
    scan: Scan,
    rc: i32,
    flags: Seq<u8>,
    at: u64,
)
    requires
        cache.wf(page),
    ensures
        cache.begins(pos, len, page) == Verdict::Resident(false) <==> pos + len > u64::MAX,
        pos + len <= u64::MAX && !(cache.view matches Some(m) && pos + len <= m.len)
            ==> cache.begins(pos, len, page) == Verdict::Ask(
            Check::Sizing { pos, end: (pos + len) as u64 },
            Question::Size,
        ),
        !cache.covers(end) && cache.with_size(Check::Sizing { pos, end }, size, page)
            == Verdict::Resident(false) ==> {
            ||| size is None
            ||| view_len_spec(size->0, page) is None
            ||| cache.view is Some && cache.view->0.len >= view_len_spec(size->0, page)->0
        },
        cache.with_size(Check::Cold { at }, size, page) == Verdict::Resident(
            size matches Some(s) && s <= at,
        ),
        cache.with_pages(Check::Asking { scan }, rc, flags, page) == Verdict::Resident(false)
            <==> rc != 0,
{
}

impl Cache {
    /// How a check goes on with the mapping that it asked for, this being the
    /// cache that has it.
    pub open spec fn with_mapping(
        self,
        check: Check,
        mapping: Option<Mapping>,
        page: usize,
    ) -> Verdict {
        match mapping {
            None => Verdict::Resident(false),
            Some(_) => self.scans(check->Remapping_pos, check->Remapping_end, page),
        }
    }
}

/// A range that the mapping does not reach is never found resident, nor is one
/// for which no mapping could be made; with a mapping that reaches it, the
/// check goes on just as if the mapping had been there from the start.
pub proof fn a_range_past_the_mapping_is_not_resident(
    cache: Cache,
    pos: u64,
    end: u64,
    len: usize,
    page: usize,
    mapping: Option<Mapping>,
)
    requires
        pos <= end,
        mapping is Some ==> cache.view == mapping,
    ensures
        ({
            let check = Check::Remapping { pos, end, len };
            let verdict = cache.with_mapping(check, mapping, page);
            &&& mapping is None ==> verdict == Verdict::Resident(false)
            &&& (mapping matches Some(m) && m.len < end) ==> verdict == Verdict::Resident(false)
            &&& (mapping matches Some(m) && m.len >= end && end - pos <= usize::MAX) ==> verdict
                == cache.begins(pos, (end - pos) as usize, page)
        }),
        cache.view is None || cache.view->0.len < end ==> cache.scans(pos, end, page)
            == Verdict::Resident(false),
{
}

/// A mapping is made only for a file that has grown past the one there is, and
/// then it is longer than that one and holds the file with the headroom behind
/// it. So every end that is at most the headroom past the file is covered by
/// it.
pub proof fn a_mapping_is_made_only_for_a_grown_file(
    cache: Cache,
    end: u64,
    size: u64,
    page: usize,
    len: usize,
    addr: usize,
)
    requires
        page >= 1,
        cache.reach(end, Some(size), page) == (ViewStep::Remap { len }),
    ensures
        cache.view matches Some(m) ==> m.len < len && m.len < end,
        size + 0x10_0000 <= len < size + page + 0x10_0000,
        end <= size + 0x10_0000 ==> (Cache { view: Some(Mapping { addr, len }) }).reach(
            end,
            Some(size),
            page,
        ) is Ready,
{
    rounding_is_to_the_nearest_page(size as int, page as int);
}

/// A check that finds its range resident has seen the flag of every page that
/// the range touches, and each said resident. One that stops at a cold page has
/// seen that of every page before it.
pub proof fn a_resident_range_was_seen_resident(
    cache: Cache,
    pos: u64,
    len: usize,
    page: usize,
    answers: Seq<Seq<u8>>,
    p: int,
)
    requires
        cache.wf(page),
        pos + len <= u64::MAX,
        cache.covers((pos + len) as u64),
        p * page < pos + len,
        p * page + page > pos,
        p >= 0,
    ensures
        ({
            let scan = scan_of(pos, (pos + len) as u64, page);
            let first = pos as int / page as int;
            match learned(cache, cache.begins(pos, len, page), answers, page) {
                Verdict::Resident(yes) => yes && scan.flag(answers, p - first) & INCORE != 0,
                Verdict::Ask(Check::Cold { at }, question) => {
                    &&& question is Size
                    &&& p * page < at ==> scan.flag(answers, p - first) & INCORE != 0
                },
                Verdict::Ask(check, question) => check is Asking && question is Pages,
            }
        }),
{
    let end = (pos + len) as u64;
    let scan = scan_of(pos, end, page);
    let first = pos as int / page as int;
    let g = page as int;
    let m = cache.view->0;
    rounding_is_to_the_nearest_page(pos as int, g);
    rounding_is_to_the_nearest_page(end as int, g);
    lemma_round_up_grows(end as int, m.len as int, g);
    assert(scan.wf());
    lemma_fundamental_div_mod(pos as int, g);
    let (a, b) = (first, (end + g - 1) / g);
    assert(a <= p < b) by (nonlinear_arith)
        requires
            a * g <= pos,
            p * g + g > pos,
            p * g < end,
            end <= b * g,
            g >= 1,
    ;
    assert((b - a) * g == b * g - a * g) by (nonlinear_arith);
    assert(scan.last - scan.off == (b - a) * g);
    vstd::arithmetic::div_mod::lemma_div_by_multiple(b - a, g);
    lemma_learned(cache, scan, answers, page, p - a);
    assert(p * g == a * g + (p - a) * g) by (nonlinear_arith);
}

/// Answers on pages lead to more such questions, to a cold page, or to the
/// verdict that every page is resident.
proof fn lemma_learned_shape(cache: Cache, scan: Scan, answers: Seq<Seq<u8>>, page: usize)
    ensures
        match learned(cache, asks(scan, cache.view->0), answers, page) {
            Verdict::Resident(yes) => yes,
            Verdict::Ask(Check::Cold { .. }, question) => question is Size,
            Verdict::Ask(check, question) => check is Asking && question is Pages,
        },
    decreases answers.len(),
{
    reveal_with_fuel(learned, 2);
    if answers.len() > 0 {
        lemma_learned_shape(cache, scan.advanced(), answers.skip(1), page);
    }
}

/// What a scan has learned from its answers.
proof fn lemma_learned(cache: Cache, scan: Scan, answers: Seq<Seq<u8>>, page: usize, p: int)
    requires
        scan.wf(),
        scan.page == page,
        0 <= p < (scan.last - scan.off) / page as int,
    ensures
        match learned(cache, asks(scan, cache.view->0), answers, page) {
            Verdict::Resident(yes) => yes && scan.flag(answers, p) & INCORE != 0,
            Verdict::Ask(Check::Cold { at }, question) => {
                &&& question is Size
                &&& scan.off + p * page < at ==> scan.flag(answers, p) & INCORE != 0
            },
            Verdict::Ask(check, question) => check is Asking && question is Pages,
        },
    decreases answers.len(),
{
    reveal_with_fuel(learned, 2);
    let g = page as int;
    let rest = scan.last - scan.off;
    assert(rest > 0) by {
        if rest == 0 {
            assert(0int / g == 0) by (nonlinear_arith)
                requires
                    g >= 1,
            ;
        }
    }
    scan.lemma_chunk();
    if answers.len() > 0 {
        let pages = scan.pages();
        let resident = warm(answers[0], pages as nat);
        warm_flags_come_first(answers[0], pages as nat);
        if resident < pages {
            if p < pages {
                assert(p * g < resident * g ==> p < resident) by (nonlinear_arith)
                    requires
                        g >= 1,
                ;
            } else {
                assert(resident * g < p * g) by (nonlinear_arith)
                    requires
                        resident < p,
                        g >= 1,
                ;
            }
            assert(0 <= resident * g <= pages * g) by (nonlinear_arith)
                requires
                    0 <= resident <= pages,
                    g >= 1,
            ;
        } else {
            let next = scan.advanced();
            vstd::arithmetic::div_mod::lemma_add_mod_noop(scan.off as int, scan.chunk(), g);
            lemma_small_mod(0, g as nat);
            assert(next.wf());
            vstd::arithmetic::div_mod::lemma_hoist_over_denominator(
                rest - scan.chunk(),
                pages,
                g as nat,
            );
            if p >= pages {
                lemma_learned(cache, next, answers.skip(1), page, p - pages);
                assert((p - pages) * g == p * g - pages * g) by (nonlinear_arith);
            } else {
                lemma_learned_shape(cache, next, answers.skip(1), page);
            }
        }
    }
}

/// A greater number rounds up at least as far.
proof fn lemma_round_up_grows(a: int, b: int, page: int)
    requires
        page >= 1,
        a <= b,
    ensures
        round_up(a, page) <= round_up(b, page),
{
    vstd::arithmetic::div_mod::lemma_div_is_ordered(a + page - 1, b + page - 1, page);
    let p = (a + page - 1) / page;
    let q = (b + page - 1) / page;
    assert(p * page <= q * page) by (nonlinear_arith)
        requires
            p <= q,
            page >= 1,
    ;
}

/// Whether a range with a page that is not resident can still be served: that
/// page begins at or past the end of a file of `size` bytes, where a read
/// stops on its own.
pub fn cold_is_past_end(size: Option<u64>, at: u64) -> (yes: bool)
    ensures
        yes == (size matches Some(s) && s <= at),
{
    match size {
        Some(size) => size <= at,
        None => false,
    }
}

} // verus!
