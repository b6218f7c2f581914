//! The events of the queueing driver: what the loop around it reports by one
//! call of a method, and what that call leads to. A run is any sequence of
//! states that are joined by such calls.

use vstd::multiset::Multiset;
use vstd::prelude::*;

use crate::effect::{
    AfterMsg, AfterReap, AfterReturn, AfterSubmit, CancelStep, Chunk, Effect, FileEntry, Finish,
    HelperJob, Opened, PendingOpen, Settlement,
};
use crate::error::Error;
use crate::job::{Stat, Transfer};
use crate::op::{Msg, Reply, ReplyView};
use crate::state::{next_suspend, DriverView};

verus! {

/// One call of a method of the driver, with what goes in and what comes out.
#[allow(inconsistent_fields)]
#[verifier::reject_recursive_types(C)]
pub enum Event<'a, C> {
    /// [`Driver::handle_msg`](crate::aio::Driver::handle_msg).
    Message { msg: Msg<'a, C>, unread: bool, stat: Result<Stat, Error>, after: AfterMsg<'a, C> },
    /// [`Driver::opened`](crate::aio::Driver::opened).
    OpenedHere {
        pending: PendingOpen<'a, C>,
        result: Result<(i32, u64), Error>,
        settled: Option<Settlement<C>>,
    },
    /// [`Driver::handle_opened`](crate::aio::Driver::handle_opened).
    OpenedAway { opened: Opened<'a, C>, after: AfterReturn<C> },
    /// [`Driver::handed`](crate::aio::Driver::handed).
    HandedOver { sent: Result<(), HelperJob<'a, C>>, back: Option<HelperJob<'a, C>> },
    /// [`Driver::register`](crate::aio::Driver::register).
    Registered { fd: i32, size: u64, reply: Reply },
    /// [`Driver::next_job`](crate::aio::Driver::next_job).
    NextJob { call: Option<Transfer> },
    /// [`Driver::submitted`](crate::aio::Driver::submitted).
    Submitted { accepted: Result<(), i32>, unread: bool, after: AfterSubmit<C> },
    /// [`Driver::sync_done`](crate::aio::Driver::sync_done).
    Blocked { moved: Result<Chunk, i32>, unread: bool, finished: Option<Finish<C>> },
    /// [`Driver::reap`](crate::aio::Driver::reap).
    Reaped { index: usize, err: i32, chunk: Chunk, unread: bool, after: AfterReap<C> },
    /// [`Driver::lose_helpers`](crate::aio::Driver::lose_helpers).
    HelpersLost,
    /// [`Driver::lose_submitters`](crate::aio::Driver::lose_submitters).
    SubmittersLost,
    /// [`Driver::end_pass`](crate::aio::Driver::end_pass).
    PassEnded,
}

/// The id of the handle that a result replies, if it replies one.
pub open spec fn handle_in(result: Result<Reply, Error>) -> Option<u64> {
    match result {
        Ok(Reply::Handle { id, .. }) => Some(id),
        _ => None,
    }
}

impl<'a, C> Event<'a, C> {
    /// The callbacks that the call hands to the driver.
    pub open spec fn taken(self) -> Multiset<C> {
        match self {
            Event::Message { msg: Msg::Submit { cb, .. }, .. } => Multiset::singleton(cb),
            Event::OpenedHere { pending, .. } => Multiset::singleton(pending.cb),
            Event::OpenedAway { opened, .. } => Multiset::singleton(opened.pending.cb),
            _ => Multiset::empty(),
        }
    }

    /// The callbacks that the call brings out of the driver.
    pub open spec fn given(self) -> Multiset<C> {
        match self {
            Event::Message { after, .. } => after.carried(),
            Event::OpenedHere { settled: Some(s), .. } => Multiset::singleton(s.cb),
            Event::OpenedAway { after, .. } => after.carried(),
            Event::Submitted { after, .. } => after.carried(),
            Event::Blocked { finished: Some(finish), .. } => finish.carried(),
            Event::Reaped { after, .. } => after.carried(),
            _ => Multiset::empty(),
        }
    }

    /// The id of the handle that the call replies, if it replies one.
    pub open spec fn replied(self) -> Option<u64> {
        match self {
            Event::Message { after: AfterMsg::Op(Some(Effect::Settle(s))), .. } => handle_in(
                s.result,
            ),
            Event::Message { after: AfterMsg::Cancel(CancelStep::Finished(finish)), .. } => handle_in(
                finish.settled.result,
            ),
            Event::OpenedHere { settled: Some(s), .. } => handle_in(s.result),
            Event::OpenedAway { after: AfterReturn::Settled(s), .. } => handle_in(s.result),
            Event::OpenedAway { after: AfterReturn::Cancelled { settled, .. }, .. } => handle_in(
                settled.result,
            ),
            Event::Registered { reply, .. } => handle_in(Ok(reply)),
            Event::Submitted { after: AfterSubmit::Finished(finish), .. } => handle_in(
                finish.settled.result,
            ),
            Event::Blocked { finished: Some(finish), .. } => handle_in(finish.settled.result),
            Event::Reaped { after: AfterReap::Finished(finish), .. } => handle_in(
                finish.settled.result,
            ),
            _ => None,
        }
    }
}

impl<'a, C> DriverView<'a, C> {
    /// Whether the method of the event may be called.
    pub open spec fn admits(self, event: Event<'a, C>) -> bool {
        match event {
            Event::Message { msg, .. } => {
                &&& self.load() < usize::MAX
                &&& msg matches Msg::Submit { op, .. } ==> op.wf()
            },
            Event::OpenedHere { .. } | Event::OpenedAway { .. } => self.load() < usize::MAX
                && self.next_id < u64::MAX,
            Event::Registered { .. } => self.next_id < u64::MAX,
            Event::NextJob { .. } => self.submitting is None,
            Event::Submitted { .. } => self.submitting is Some,
            Event::Blocked { moved, .. } => {
                &&& self.submitting is Some
                &&& moved matches Ok(chunk) ==> self.submitting->0.kind@.accepts(
                    chunk.n,
                    chunk.bytes@,
                )
            },
            Event::Reaped { index, err, chunk, .. } => {
                &&& index < self.inflight.len()
                &&& err == 0 ==> self.inflight[index as int].kind@.accepts(chunk.n, chunk.bytes@)
            },
            Event::HandedOver { .. } | Event::HelpersLost | Event::SubmittersLost
            | Event::PassEnded => true,
        }
    }

    /// What the method of the event does to the driver and brings out of it.
    pub open spec fn does(self, new: Self, event: Event<'a, C>) -> bool {
        match event {
            Event::Message { msg, unread, stat, after } => self.takes_message(
                new,
                msg,
                unread,
                stat,
                after,
            ),
            Event::OpenedHere { pending, result, settled } => self.continues(
                new,
                pending,
                result,
                settled,
            ),
            Event::OpenedAway { opened, after } => self.comes_back(new, opened, after),
            Event::HandedOver { sent, back } => match sent {
                Ok(()) => back is None && new == self,
                Err(job) => back == Some(job) && new == self.without(job),
            },
            Event::Registered { fd, size, reply } => {
                &&& reply@ == (ReplyView::Handle { id: self.next_id, size, fd: fd as i64 })
                &&& new == DriverView {
                    next_id: (self.next_id + 1) as u64,
                    files: self.files.insert(
                        self.next_id,
                        FileEntry { fd, ops: 0, closing: None },
                    ),
                    ..self
                }
            },
            Event::NextJob { call } => self.starts_next(new, call),
            Event::Submitted { accepted, unread, after } => self.launches(
                new,
                accepted,
                unread,
                after,
            ),
            Event::Blocked { moved, unread, finished } => self.blocks(new, moved, unread, finished),
            Event::Reaped { index, err, chunk, unread, after } => self.reaps(
                new,
                index,
                err,
                chunk,
                unread,
                after,
            ),
            Event::HelpersLost => new == (DriverView {
                helpers_gone: true,
                pending_opens: Set::empty(),
                ..self
            }),
            Event::SubmittersLost => new == (DriverView { disconnected: true, ..self }),
            Event::PassEnded => new == (DriverView {
                suspend_ns: next_suspend(self.suspend_ns, self.progress),
                progress: false,
                ..self
            }),
        }
    }

    /// The method of the event, called on a driver in order, leads to `new`.
    pub open spec fn takes(self, new: Self, event: Event<'a, C>) -> bool {
        &&& self.wf()
        &&& self.admits(event)
        &&& new.wf()
        &&& self.does(new, event)
        &&& new.waiting().add(event.given()) == self.waiting().add(event.taken())
    }
}

/// A run of the driver: the states, and the calls that join them.
#[verifier::reject_recursive_types(C)]
pub struct DriverRun<'a, C> {
    pub states: Seq<DriverView<'a, C>>,
    pub events: Seq<Event<'a, C>>,
}

impl<'a, C> DriverRun<'a, C> {
    /// The call number `i` leads from one state to the next.
    pub open spec fn steps(self, i: int) -> bool {
        self.states[i].takes(self.states[i + 1], self.events[i])
    }

    /// The states are joined by the calls.
    pub open spec fn runs(self) -> bool {
        &&& self.states.len() == self.events.len() + 1
        &&& forall|i: int| 0 <= i < self.events.len() ==> #[trigger] self.steps(i)
    }
}

/// A call replies the next handle id or none; the ids never go back.
pub proof fn a_call_replies_the_next_handle_or_none<'a, C>(
    v: DriverView<'a, C>,
    new: DriverView<'a, C>,
    event: Event<'a, C>,
)
    requires
        v.takes(new, event),
    ensures
        new.next_id >= v.next_id,
        event.replied() matches Some(id) ==> {
            &&& id == v.next_id
            &&& new.next_id == id + 1
            &&& !v.files.contains_key(id)
            &&& new.fd_of(id) is Ok
        },
{
}

/// The ids never go back over a run.
proof fn lemma_ids_ascend<'a, C>(run: DriverRun<'a, C>, i: int, j: int)
    requires
        run.runs(),
        0 <= i <= j < run.states.len(),
    ensures
        run.states[i].next_id <= run.states[j].next_id,
    decreases j - i,
{
    if i < j {
        lemma_ids_ascend(run, i, j - 1);
        assert(run.steps(j - 1));
        a_call_replies_the_next_handle_or_none(
            run.states[j - 1],
            run.states[j],
            run.events[j - 1],
        );
    }
}

/// No two handles that a driver replies have the same id, however far apart and
/// whether or not the first is closed by then: a later one has a greater id.
pub proof fn no_handle_id_is_given_twice<'a, C>(run: DriverRun<'a, C>, i: int, j: int)
    requires
        run.runs(),
        0 <= i < j < run.events.len(),
        run.events[i].replied() is Some,
        run.events[j].replied() is Some,
    ensures
        run.events[i].replied()->0 < run.events[j].replied()->0,
{
    assert(run.steps(i) && run.steps(j));
    a_call_replies_the_next_handle_or_none(run.states[i], run.states[i + 1], run.events[i]);
    a_call_replies_the_next_handle_or_none(run.states[j], run.states[j + 1], run.events[j]);
    lemma_ids_ascend(run, i + 1, j);
}

} // verus!
