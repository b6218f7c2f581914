//! The submission front: operations get an id and go to the driver thread.

use vstd::prelude::*;

use crate::channel::Tx;
use crate::effect::Settlement;
use crate::error::{driver_gone, driver_gone_spec, Error, ErrorKind};
use crate::op::{Msg, Op};

verus! {

/// The mechanism that the asynchronous runtime found to drive files with.
#[derive(Debug, Clone, Copy, PartialEq, Eq, Structural)]
pub enum Mechanism {
    IoUring,
    Poll,
    Iocp,
}

/// The label of a runtime driven by `mechanism`.
pub open spec fn mechanism_label(mechanism: Mechanism) -> &'static str {
    match mechanism {
        Mechanism::IoUring => "compio-io-uring",
        Mechanism::Poll => "compio-polling",
        Mechanism::Iocp => "compio-iocp",
    }
}

/// The error of a runtime thread that exited before it said anything.
pub open spec fn startup_lost_spec() -> Error {
    Error::Custom {
        kind: ErrorKind::BrokenPipe,
        message: "compio driver thread exited during startup",
    }
}

/// The label of a backend from what the runtime thread said when it started.
pub open spec fn label_of(report: Option<Result<Mechanism, Error>>) -> Result<&'static str, Error> {
    match report {
        Some(Ok(mechanism)) => Ok(mechanism_label(mechanism)),
        Some(Err(e)) => Err(e),
        None => Err(startup_lost_spec()),
    }
}

/// A backend has a label exactly when its thread told of a mechanism, and its
/// label tells which: no two mechanisms have the same, and none has that of the
/// POSIX AIO backend. A thread that told of an error is what failed; one that
/// told nothing is a broken pipe.
pub proof fn a_label_tells_the_mechanism(a: Mechanism, b: Mechanism, e: Error)
    ensures
        label_of(Some(Ok(a))) matches Ok(label) && label@ != "darwin-aio"@,
        (label_of(Some(Ok(a)))->Ok_0)@ == (label_of(Some(Ok(b)))->Ok_0)@ ==> a == b,
        match (a, label_of(Some(Ok(a)))) {
            (Mechanism::IoUring, Ok(label)) => label@ == "compio-io-uring"@,
            (Mechanism::Poll, Ok(label)) => label@ == "compio-polling"@,
            (Mechanism::Iocp, Ok(label)) => label@ == "compio-iocp"@,
            _ => false,
        },
        label_of(Some(Err(e))) == Err::<&'static str, Error>(e),
        label_of(None) matches Err(Error::Custom { kind, message }) && kind is BrokenPipe
            && message@ == "compio driver thread exited during startup"@,
{
    reveal_strlit("compio-io-uring");
    reveal_strlit("compio-polling");
    reveal_strlit("compio-iocp");
    reveal_strlit("darwin-aio");
    assert("compio-io-uring"@.len() == 15);
    assert("compio-polling"@.len() == 14);
    assert("compio-iocp"@.len() == 11);
    assert("darwin-aio"@.len() == 10);
}

/// What the runtime thread said when it started, or that it said nothing:
/// the backend's label, or why there is no backend.
pub fn started(report: Option<Result<Mechanism, Error>>) -> (label: Result<&'static str, Error>)
    ensures
        label == (match report {
            Some(Ok(mechanism)) => Ok(mechanism_label(mechanism)),
            Some(Err(e)) => Err(e),
            None => Err(startup_lost_spec()),
        }),
        label == label_of(report),
{
    match report {
        Some(Ok(mechanism)) => Ok(
            match mechanism {
                Mechanism::IoUring => "compio-io-uring",
                Mechanism::Poll => "compio-polling",
                Mechanism::Iocp => "compio-iocp",
            },
        ),
        Some(Err(e)) => Err(e),
        None => Err(
            Error::Custom {
                kind: ErrorKind::BrokenPipe,
                message: "compio driver thread exited during startup",
            },
        ),
    }
}

/// The label of the POSIX AIO backend.
pub fn aio_label() -> (label: &'static str)
    ensures
        label@ == "darwin-aio"@,
{
    "darwin-aio"
}

/// The front of a running driver thread.
#[verifier::reject_recursive_types(C)]
pub struct Driver<'a, C> {
    tx: Tx<Msg<'a, C>>,
    next_op: u64,
    label: &'static str,
}

/// The id behind `id`: ids wrap around after the greatest.
pub open spec fn id_after(id: u64) -> u64 {
    id.wrapping_add(1)
}

/// The operation goes to the driver thread behind the messages `before`; or,
/// when that is gone, its callback is to be settled so.
pub open spec fn sends<'a, C>(
    id: u64,
    op: Op<'a>,
    cb: C,
    before: Seq<Msg<'a, C>>,
    after: Seq<Msg<'a, C>>,
    settled: Option<Settlement<C>>,
) -> bool {
    match settled {
        None => after == before.push(Msg::Submit { id, op, cb }),
        Some(s) => after == before && s.tells(cb, Err(driver_gone_spec())),
    }
}

/// An operation that is submitted is never lost and never answered twice: it
/// goes to the driver's thread, last of all and once, with its own id and
/// callback; or its callback comes back to be told that the driver is gone, and
/// nothing goes.
pub proof fn a_submission_goes_or_comes_back<'a, C>(
    id: u64,
    op: Op<'a>,
    cb: C,
    before: Seq<Msg<'a, C>>,
    after: Seq<Msg<'a, C>>,
    settled: Option<Settlement<C>>,
)
    requires
        sends(id, op, cb, before, after, settled),
    ensures
        settled is None <==> after.len() == before.len() + 1,
        settled is Some <==> after == before,
        settled is None ==> after.drop_last() == before && (after.last() matches Msg::Submit {
            id: i,
            op: o,
            cb: c,
        } && i == id && o == op && c == cb),
        settled matches Some(s) ==> s.cb == cb && (s.result matches Err(Error::Custom { kind, .. })
            && kind is BrokenPipe),
{
}

impl<'a, C> Driver<'a, C> {
    /// The id that the next operation gets.
    pub closed spec fn next_op(self) -> u64 {
        self.next_op
    }

    /// The name of the mechanism that drives the backend.
    pub closed spec fn label(self) -> &'static str {
        self.label
    }

    /// The messages that were meant for the driver thread, in their order,
    /// whether it was there to take them or not.
    pub closed spec fn offered(self) -> Seq<Msg<'a, C>> {
        self.tx.offered()
    }

    /// The messages that went to the driver thread, in their order.
    pub closed spec fn sent(self) -> Seq<Msg<'a, C>> {
        self.tx.sent()
    }

    /// The front of the driver thread that receives from the other end of
    /// `tx`, driven by the mechanism called `label`.
    pub fn new(tx: Tx<Msg<'a, C>>, label: &'static str) -> (driver: Self)
        ensures
            driver.next_op() == 1,
            driver.label() == label,
            driver.offered() == tx.offered(),
            driver.sent() == tx.sent(),
    {
        Driver { tx, next_op: 1, label }
    }

    /// The I/O mechanism that actually drives this backend: the runtime may
    /// have fallen back from io_uring to polling.
    pub fn backend_label(&self) -> (label: &'static str)
        ensures
            label == self.label(),
    {
        self.label
    }

    /// Submit an operation. Returns its id, the token that
    /// [`Driver::cancel`] takes. The operation with its callback goes to the
    /// driver thread; or, when that is gone, the callback comes back to be
    /// settled.
    pub fn submit(&mut self, op: Op<'a>, cb: C) -> (submitted: (u64, Option<Settlement<C>>))
        ensures
            submitted.0 == old(self).next_op(),
            final(self).next_op() == id_after(old(self).next_op()),
            final(self).label() == old(self).label(),
            final(self).offered() == old(self).offered().push(
                Msg::Submit { id: old(self).next_op(), op, cb },
            ),
            sends(old(self).next_op(), op, cb, old(self).sent(), final(self).sent(), submitted.1),
    {
        let id: u64 = self.next_op;
        self.next_op = id.wrapping_add(1);
        let sent = self.tx.send(Msg::Submit { id, op, cb });
        (id, unsent(sent))
    }

    /// Best-effort abort of an op: a queued op settles as cancelled, a
    /// submitted one is cancelled where the backend can. An op that has
    /// completed delivers its result. The request is sent in any case; without
    /// a driver thread there is nothing to abort, and it is dropped.
    pub fn cancel(&mut self, id: u64)
        ensures
            final(self).offered() == old(self).offered().push(Msg::Cancel { id }),
            final(self).sent() == old(self).sent().push(Msg::Cancel { id }) || final(self).sent()
                == old(self).sent(),
            final(self).next_op() == old(self).next_op(),
            final(self).label() == old(self).label(),
    {
        let _ = self.tx.send(Msg::Cancel { id });
    }
}

/// What is to settle after a message was sent: the callback of an operation
/// that came back unsent. A cancel request that comes back settles nothing.
pub fn unsent<'a, C>(sent: Result<(), Msg<'a, C>>) -> (settled: Option<Settlement<C>>)
    ensures
        match sent {
            Err(Msg::Submit { cb, .. }) => settled matches Some(s) && s.tells(
                cb,
                Err(driver_gone_spec()),
            ),
            _ => settled is None,
        },
{
    match sent {
        Err(Msg::Submit { cb, .. }) => Some(Settlement { cb, result: Err(driver_gone()) }),
        _ => None,
    }
}

/// The id that the operation `k` places behind the one with id `first` gets.
pub open spec fn nth_id(first: u64, k: nat) -> u64
    decreases k,
{
    if k == 0 {
        first
    } else {
        id_after(nth_id(first, (k - 1) as nat))
    }
}

/// No two of as many operations as there are ids get the same one.
pub proof fn op_ids_differ(first: u64, i: nat, j: nat)
    requires
        i < j,
        j - i <= u64::MAX,
    ensures
        nth_id(first, i) != nth_id(first, j),
{
    lemma_nth_id(first, i);
    lemma_nth_id(first, j);
    let m: int = u64::MAX + 1;
    let a = first + i;
    let b = first + j;
    if a % m == b % m {
        vstd::arithmetic::div_mod::lemma_fundamental_div_mod(a, m);
        vstd::arithmetic::div_mod::lemma_fundamental_div_mod(b, m);
        let q = b / m - a / m;
        assert(b - a == m * q) by (nonlinear_arith)
            requires
                a == m * (a / m) + a % m,
                b == m * (b / m) + b % m,
                a % m == b % m,
                q == b / m - a / m,
        ;
        assert(q <= 0 || q >= 1);
        assert(false) by (nonlinear_arith)
            requires
                b - a == m * q,
                0 < b - a < m,
        ;
    }
}

/// Ids count up modulo their range.
proof fn lemma_nth_id(first: u64, k: nat)
    ensures
        nth_id(first, k) == (first + k) % (u64::MAX + 1),
    decreases k,
{
    let m: int = u64::MAX + 1;
    if k == 0 {
        vstd::arithmetic::div_mod::lemma_small_mod(first as nat, m as nat);
    } else {
        lemma_nth_id(first, (k - 1) as nat);
        vstd::arithmetic::div_mod::lemma_add_mod_noop(first + k - 1, 1, m);
        vstd::arithmetic::div_mod::lemma_small_mod(1, m as nat);
        let before = nth_id(first, (k - 1) as nat);
        if before < u64::MAX {
            vstd::arithmetic::div_mod::lemma_small_mod((before + 1) as nat, m as nat);
        } else {
            vstd::arithmetic::div_mod::lemma_mod_self_0(m);
        }
    }
}

} // verus!
