//! The queueing driver with the threads around it: the submission front, the
//! channel, the driver's thread, what its loop has in hand, and the helper
//! threads. Whatever order they act in, every callback that is submitted is
//! called once, with the result of its own operation.
//!
//! The close of a descriptor that only a job knew about carries no callback,
//! and is left out here.

use vstd::multiset::Multiset;
use vstd::prelude::*;

use crate::effect::{
    AfterMsg, AfterOpen, AfterReap, AfterReturn, AfterSubmit, CancelStep, Effect, Finish,
    HelperJob, OpenJob, Opened, PendingOpen, Settlement, Wait,
};
use crate::error::{bad_handle_spec, cancelled_spec, driver_gone_spec, Error};
use crate::event::Event;
use crate::host::Errno;
use crate::job::{Job, JobKindView, JobView, ReadBufView, ReadJobView, Want, WriteJobView};
use crate::op::{outcome, Msg, Op, OpenSpec, ReplyView};
use crate::run::{after, ends, goes_through, Moved};
use crate::state::{find, idle_holds_no_callback, DriverView};
use crate::submit::{id_after, sends};
use crate::task::read_asked;

verus! {

/// What the items of a list hold, taken together.
pub open spec fn gathered<T, K>(items: Seq<T>, held: spec_fn(T) -> Multiset<K>) -> Multiset<K>
    decreases items.len(),
{
    if items.len() == 0 {
        Multiset::empty()
    } else {
        gathered(items.drop_last(), held).add(held(items.last()))
    }
}

/// An item at the end adds what it holds.
pub proof fn lemma_gathered_push<T, K>(items: Seq<T>, item: T, held: spec_fn(T) -> Multiset<K>)
    ensures
        gathered(items.push(item), held) == gathered(items, held).add(held(item)),
{
    assert(items.push(item).drop_last() =~= items);
}

/// Two lists hold what both hold.
pub proof fn lemma_gathered_both<T, K>(a: Seq<T>, b: Seq<T>, held: spec_fn(T) -> Multiset<K>)
    ensures
        gathered(a + b, held) == gathered(a, held).add(gathered(b, held)),
    decreases b.len(),
{
    if b.len() == 0 {
        assert(a + b =~= a);
        assert(gathered(a + b, held) =~= gathered(a, held).add(gathered(b, held)));
    } else {
        lemma_gathered_both(a, b.drop_last(), held);
        assert((a + b).drop_last() =~= a + b.drop_last());
        assert((a + b).last() == b.last());
        assert(gathered(a + b, held) =~= gathered(a, held).add(gathered(b, held)));
    }
}

/// An item taken out takes along what it holds.
pub proof fn lemma_gathered_remove<T, K>(items: Seq<T>, i: int, held: spec_fn(T) -> Multiset<K>)
    requires
        0 <= i < items.len(),
    ensures
        gathered(items, held) == gathered(items.remove(i), held).add(held(items[i])),
    decreases items.len(),
{
    if i == items.len() - 1 {
        assert(items.remove(i) =~= items.drop_last());
    } else {
        lemma_gathered_remove(items.drop_last(), i, held);
        assert(items.remove(i).drop_last() =~= items.drop_last().remove(i));
        assert(items.remove(i).last() == items.last());
        assert(gathered(items, held) =~= gathered(items.remove(i), held).add(held(items[i])));
    }
}

/// A list of one item holds what that holds, and one of two what both do.
pub proof fn lemma_gathered_few<T, K>(x: T, y: T, held: spec_fn(T) -> Multiset<K>)
    ensures
        gathered(seq![x], held) == held(x),
        gathered(seq![x, y], held) == held(x).add(held(y)),
{
    let none = Seq::<T>::empty();
    lemma_gathered_push(none, x, held);
    lemma_gathered_push(none.push(x), y, held);
    assert(seq![x] =~= none.push(x));
    assert(seq![x, y] =~= none.push(x).push(y));
    assert(Multiset::<K>::empty().add(held(x)) =~= held(x));
}

/// What the loop around the driver has in hand: a callback to call, or a call
/// to make first.
#[verifier::reject_recursive_types(C)]
pub enum Hand<'a, C> {
    Settle { cb: C, result: Result<ReplyView, Error> },
    OpenHere(OpenJob<'a, C>),
    OpenAway(OpenJob<'a, C>),
    Close { fd: i32, cb: C },
    SetLen { fd: i32, size: u64, cb: C },
}

/// A callback that was called, and what with.
pub struct Told<C> {
    pub cb: C,
    pub result: Result<ReplyView, Error>,
}

/// The driver and the threads around it.
#[verifier::reject_recursive_types(C)]
pub struct System<'a, C> {
    /// The id that the next operation gets.
    pub next_op: u64,
    /// Whether anyone can still submit.
    pub front: bool,
    pub channel: Seq<Msg<'a, C>>,
    /// Whether the driver's thread is there.
    pub thread: bool,
    pub driver: DriverView<'a, C>,
    pub hands: Seq<Hand<'a, C>>,
    /// Whether the helper threads are there.
    pub helpers: bool,
    /// Opens that the helper threads have, and those they have sent back.
    pub opens: Seq<OpenJob<'a, C>>,
    pub back: Seq<Opened<'a, C>>,
    /// The callbacks that were submitted, that were called, and that went down
    /// with a thread that did not end by itself.
    pub submitted: Multiset<C>,
    pub told: Seq<Told<C>>,
    pub lost: Multiset<C>,
    /// The errors that calls made for a callback's operation brought.
    pub faults: Set<(C, Error)>,
}

/// One step of one of the threads.
#[allow(inconsistent_fields)]
#[verifier::reject_recursive_types(C)]
pub enum Action<'a, C> {
    Submit { op: Op<'a>, cb: C },
    Cancel { id: u64 },
    /// Nobody can submit any more.
    LeaveFront,
    /// The loop calls the driver, which goes over to `new`; where that is about
    /// something the loop has in hand, it stands at `hand`.
    Call { event: Event<'a, C>, new: DriverView<'a, C>, hand: int },
    /// The loop calls back.
    Tell { hand: int },
    /// A close or a change of length that the loop had in hand came back.
    Perform { hand: int, result: Result<(), Error> },
    /// A helper thread has run an open.
    HelperRuns { open: int, result: Result<(i32, u64), Error> },
    /// The loop ends because nothing more can come.
    ThreadExits,
    /// The driver's thread is gone without having ended by itself.
    ThreadVanishes,
    /// The helper threads are gone.
    HelpersVanish,
}

/// A settlement in hand.
pub open spec fn to_settle<'a, C>(s: Settlement<C>) -> Hand<'a, C> {
    Hand::Settle { cb: s.cb, result: outcome(s.result) }
}

/// What the end of a job puts into the loop's hands.
pub open spec fn in_finish<'a, C>(finish: Finish<C>) -> Seq<Hand<'a, C>> {
    match finish.deferred {
        Some(d) => seq![to_settle(finish.settled), Hand::Close { fd: d.fd, cb: d.cb }],
        None => seq![to_settle(finish.settled)],
    }
}

/// What an effect puts into the loop's hands.
pub open spec fn in_effect<'a, C>(effect: Option<Effect<'a, C>>) -> Seq<Hand<'a, C>> {
    match effect {
        None => Seq::empty(),
        Some(Effect::Settle(s)) => seq![to_settle(s)],
        Some(Effect::OpenHere(job)) => seq![Hand::OpenHere(job)],
        Some(Effect::OpenAway(job)) => seq![Hand::OpenAway(job)],
        Some(Effect::Close { fd, cb }) => seq![Hand::Close { fd, cb }],
        Some(Effect::SetLen { fd, size, cb }) => seq![Hand::SetLen { fd, size, cb }],
    }
}

/// What a call of the driver puts into the loop's hands.
pub open spec fn in_event<'a, C>(event: Event<'a, C>) -> Seq<Hand<'a, C>> {
    match event {
        Event::Message { after: AfterMsg::Op(effect), .. } => in_effect(effect),
        Event::Message { after: AfterMsg::Cancel(CancelStep::Finished(finish)), .. } => in_finish(
            finish,
        ),
        Event::OpenedHere { settled: Some(s), .. } => seq![to_settle(s)],
        Event::OpenedAway { after: AfterReturn::Settled(s), .. } => seq![to_settle(s)],
        Event::OpenedAway { after: AfterReturn::Cancelled { settled, .. }, .. } => seq![
            to_settle(settled),
        ],
        Event::Submitted { after: AfterSubmit::Finished(finish), .. } => in_finish(finish),
        Event::Blocked { finished: Some(finish), .. } => in_finish(finish),
        Event::Reaped { after: AfterReap::Finished(finish), .. } => in_finish(finish),
        _ => Seq::empty(),
    }
}

/// The errors that a call of the driver reports, each with the callback whose
/// operation the failed call was made for.
pub open spec fn faults_in<'a, C>(v: DriverView<'a, C>, event: Event<'a, C>) -> Set<(C, Error)> {
    match event {
        Event::Message { msg: Msg::Submit { cb, .. }, stat: Err(e), .. } => set![(cb, e)],
        Event::OpenedHere { pending, result: Err(e), .. } => set![(pending.cb, e)],
        Event::OpenedAway { opened, .. } => match opened.result {
            Err(e) => set![(opened.pending.cb, e)],
            Ok(_) => Set::empty(),
        },
        Event::Submitted { accepted: Err(code), .. } => set![(v.submitting->0.cb, Error::Os(code))],
        Event::Blocked { moved: Err(code), .. } => set![(v.submitting->0.cb, Error::Os(code))],
        Event::Reaped { index, err, .. } => set![(v.inflight[index as int].cb, Error::Os(err))],
        _ => Set::empty(),
    }
}

/// The callback of a message.
pub open spec fn cb_of_msg<'a, C>() -> spec_fn(Msg<'a, C>) -> Multiset<C> {
    |msg: Msg<'a, C>|
        match msg {
            Msg::Submit { cb, .. } => Multiset::singleton(cb),
            Msg::Cancel { .. } => Multiset::empty(),
        }
}

/// The callback of something in hand.
pub open spec fn cb_of_hand<'a, C>() -> spec_fn(Hand<'a, C>) -> Multiset<C> {
    |hand: Hand<'a, C>|
        match hand {
            Hand::Settle { cb, .. } => Multiset::singleton(cb),
            Hand::OpenHere(job) => Multiset::singleton(job.pending.cb),
            Hand::OpenAway(job) => Multiset::singleton(job.pending.cb),
            Hand::Close { cb, .. } => Multiset::singleton(cb),
            Hand::SetLen { cb, .. } => Multiset::singleton(cb),
        }
}

/// The callback of an open.
pub open spec fn cb_of_open<'a, C>() -> spec_fn(OpenJob<'a, C>) -> Multiset<C> {
    |job: OpenJob<'a, C>| Multiset::singleton(job.pending.cb)
}

/// The callback of an open that was run.
pub open spec fn cb_of_opened<'a, C>() -> spec_fn(Opened<'a, C>) -> Multiset<C> {
    |opened: Opened<'a, C>| Multiset::singleton(opened.pending.cb)
}

/// The callback that was called.
pub open spec fn cb_of_told<C>() -> spec_fn(Told<C>) -> Multiset<C> {
    |told: Told<C>| Multiset::singleton(told.cb)
}

/// What to call back with after a call that returns nothing but its success.
pub open spec fn unit_reply(result: Result<(), Error>) -> Result<ReplyView, Error> {
    match result {
        Ok(()) => Ok(ReplyView::Unit),
        Err(e) => Err(e),
    }
}

/// A call that returns nothing but its success is answered as it went: well
/// with nothing to tell, or with its own error.
pub proof fn a_call_is_answered_as_it_went(e: Error)
    ensures
        unit_reply(Ok(())) matches Ok(reply) && reply is Unit,
        unit_reply(Err(e)) == Err::<ReplyView, Error>(e),
{
}

impl<'a, C> System<'a, C> {
    /// Everything is there, and nothing was submitted yet.
    pub open spec fn initial(self) -> bool {
        &&& self.next_op == 1
        &&& self.front && self.thread && self.helpers
        &&& self.channel.len() == 0 && self.hands.len() == 0
        &&& self.opens.len() == 0 && self.back.len() == 0 && self.told.len() == 0
        &&& self.driver.wf()
        &&& self.driver.idle()
        &&& forall|h: u64| !self.driver.files.contains_key(h)
        &&& self.driver.pending_opens == Set::<u64>::empty()
        &&& !self.driver.disconnected
        &&& self.submitted == Multiset::<C>::empty()
        &&& self.lost == Multiset::<C>::empty()
        &&& self.faults == Set::<(C, Error)>::empty()
    }

    /// Whether the action can come next. Of the operations, only as many are
    /// submitted as there are ids.
    pub open spec fn enabled(self, action: Action<'a, C>) -> bool {
        match action {
            Action::Submit { .. } => self.front && self.next_op < u64::MAX,
            Action::Cancel { .. } => self.front,
            Action::LeaveFront => true,
            Action::Call { event, new, hand } => {
                &&& self.thread
                &&& self.driver.takes(new, event)
                &&& match event {
                    Event::Message { msg, .. } => self.channel.len() > 0 && msg == self.channel[0],
                    Event::OpenedHere { pending, .. } => {
                        &&& 0 <= hand < self.hands.len()
                        &&& self.hands[hand] matches Hand::OpenHere(job) && job.pending == pending
                    },
                    Event::OpenedAway { opened, .. } => self.back.len() > 0 && opened
                        == self.back[0],
                    Event::HandedOver { sent, .. } => {
                        &&& 0 <= hand < self.hands.len()
                        &&& self.hands[hand] matches Hand::OpenAway(job) && sent == (
                        if self.helpers {
                            Ok(())
                        } else {
                            Err(HelperJob::Open(job))
                        })
                    },
                    Event::Registered { .. } => false,
                    Event::HelpersLost => !self.helpers && self.back.len() == 0,
                    Event::SubmittersLost => !self.front && self.channel.len() == 0,
                    _ => true,
                }
            },
            Action::Tell { hand } => {
                &&& self.thread
                &&& 0 <= hand < self.hands.len()
                &&& self.hands[hand] is Settle
            },
            Action::Perform { hand, .. } => {
                &&& self.thread
                &&& 0 <= hand < self.hands.len()
                &&& self.hands[hand] is Close || self.hands[hand] is SetLen
            },
            Action::HelperRuns { open, .. } => self.helpers && 0 <= open < self.opens.len(),
            Action::ThreadExits => self.thread && self.hands.len() == 0 && self.driver.waits()
                == Wait::Exit,
            Action::ThreadVanishes => self.thread,
            Action::HelpersVanish => self.helpers,
        }
    }

    /// The state after a call of the driver.
    pub open spec fn called(self, event: Event<'a, C>, new: DriverView<'a, C>, hand: int) -> Self {
        let took = match event {
            Event::Message { .. } => System { channel: self.channel.remove(0), ..self },
            Event::OpenedHere { .. } => System { hands: self.hands.remove(hand), ..self },
            Event::OpenedAway { .. } => System { back: self.back.remove(0), ..self },
            Event::HandedOver { sent: Ok(()), .. } => System {
                hands: self.hands.remove(hand),
                opens: self.opens.push(self.hands[hand]->OpenAway_0),
                ..self
            },
            Event::HandedOver { sent: Err(_), .. } => System {
                hands: self.hands.remove(hand).push(
                    Hand::OpenHere(self.hands[hand]->OpenAway_0),
                ),
                ..self
            },
            _ => self,
        };
        System {
            driver: new,
            hands: took.hands + in_event(event),
            faults: self.faults.union(faults_in(self.driver, event)),
            ..took
        }
    }

    /// The state after an action. A message to a thread that is gone comes
    /// back, and so does an open that a helper ran for one.
    pub open spec fn next(self, action: Action<'a, C>) -> Self {
        match action {
            Action::Submit { op, cb } => {
                let submitted = System {
                    next_op: id_after(self.next_op),
                    submitted: self.submitted.insert(cb),
                    ..self
                };
                if self.thread {
                    System {
                        channel: self.channel.push(Msg::Submit { id: self.next_op, op, cb }),
                        ..submitted
                    }
                } else {
                    System {
                        told: self.told.push(Told { cb, result: Err(driver_gone_spec()) }),
                        ..submitted
                    }
                }
            },
            Action::Cancel { id } => if self.thread {
                System { channel: self.channel.push(Msg::Cancel { id }), ..self }
            } else {
                self
            },
            Action::LeaveFront => System { front: false, ..self },
            Action::Call { event, new, hand } => self.called(event, new, hand),
            Action::Tell { hand } => match self.hands[hand] {
                Hand::Settle { cb, result } => System {
                    hands: self.hands.remove(hand),
                    told: self.told.push(Told { cb, result }),
                    ..self
                },
                _ => self,
            },
            Action::Perform { hand, result } => match self.hands[hand] {
                Hand::Close { cb, .. } | Hand::SetLen { cb, .. } => System {
                    hands: self.hands.remove(hand).push(
                        Hand::Settle { cb, result: unit_reply(result) },
                    ),
                    faults: match result {
                        Ok(()) => self.faults,
                        Err(e) => self.faults.insert((cb, e)),
                    },
                    ..self
                },
                _ => self,
            },
            Action::HelperRuns { open, result } => {
                let pending = self.opens[open].pending;
                let opens = self.opens.remove(open);
                if self.thread {
                    System { opens, back: self.back.push(Opened { pending, result }), ..self }
                } else {
                    System {
                        opens,
                        told: self.told.push(
                            Told { cb: pending.cb, result: Err(driver_gone_spec()) },
                        ),
                        ..self
                    }
                }
            },
            Action::ThreadExits => self.without_thread(),
            Action::ThreadVanishes => self.without_thread(),
            Action::HelpersVanish => System {
                helpers: false,
                opens: Seq::empty(),
                lost: self.lost.add(gathered(self.opens, cb_of_open())),
                ..self
            },
        }
    }

    /// The driver's thread is gone, and with it all that it held and all that
    /// was on the way to it.
    pub open spec fn without_thread(self) -> Self {
        System {
            thread: false,
            channel: Seq::empty(),
            hands: Seq::empty(),
            back: Seq::empty(),
            lost: self.lost.add(gathered(self.channel, cb_of_msg())).add(
                self.driver.waiting(),
            ).add(gathered(self.hands, cb_of_hand())).add(gathered(self.back, cb_of_opened())),
            ..self
        }
    }

    /// The callbacks that are on their way.
    pub open spec fn on_its_way(self) -> Multiset<C> {
        gathered(self.channel, cb_of_msg()).add(
            if self.thread {
                self.driver.waiting()
            } else {
                Multiset::empty()
            },
        ).add(gathered(self.hands, cb_of_hand())).add(gathered(self.opens, cb_of_open())).add(
            gathered(self.back, cb_of_opened()),
        )
    }

    /// Every callback that was submitted was called, is on its way, or went
    /// down with a thread.
    pub open spec fn conserves(self) -> bool {
        self.submitted == gathered(self.told, cb_of_told()).add(self.on_its_way()).add(self.lost)
    }
}

/// The end of a job carries what it puts into the loop's hands.
proof fn lemma_finish_is_given<'a, C>(finish: Finish<C>)
    ensures
        gathered(in_finish::<'a, C>(finish), cb_of_hand()) == finish.carried(),
{
    let held = cb_of_hand::<'a, C>();
    let settle = to_settle::<'a, C>(finish.settled);
    match finish.deferred {
        Some(d) => {
            lemma_gathered_few(settle, Hand::Close { fd: d.fd, cb: d.cb }, held);
            assert(held(settle).add(Multiset::singleton(d.cb)) =~= finish.carried());
        },
        None => lemma_gathered_few(settle, settle, held),
    }
}

/// What a call of the driver brings out of it is what the loop has in hand
/// then.
proof fn lemma_hands_are_given<'a, C>(event: Event<'a, C>)
    ensures
        gathered(in_event(event), cb_of_hand()) == event.given(),
{
    let held = cb_of_hand::<'a, C>();
    let hands = in_event(event);
    match event {
        Event::Message { after: AfterMsg::Cancel(CancelStep::Finished(finish)), .. } => {
            lemma_finish_is_given(finish);
        },
        Event::Submitted { after: AfterSubmit::Finished(finish), .. } => {
            lemma_finish_is_given(finish);
        },
        Event::Blocked { finished: Some(finish), .. } => {
            lemma_finish_is_given(finish);
        },
        Event::Reaped { after: AfterReap::Finished(finish), .. } => {
            lemma_finish_is_given(finish);
        },
        _ => {
            if hands.len() > 0 {
                lemma_gathered_few(hands[0], hands[0], held);
                assert(hands =~= seq![hands[0]]);
            }
        },
    }
}

/// A call of the driver conserves the callbacks.
proof fn lemma_call_conserves<'a, C>(
    s: System<'a, C>,
    event: Event<'a, C>,
    new: DriverView<'a, C>,
    hand: int,
)
    requires
        s.conserves(),
        s.enabled(Action::Call { event, new, hand }),
    ensures
        s.called(event, new, hand).conserves(),
{
    let next = s.called(event, new, hand);
    lemma_hands_are_given(event);
    let of_msg = cb_of_msg::<'a, C>();
    let of_hand = cb_of_hand::<'a, C>();
    let of_open = cb_of_open::<'a, C>();
    let of_opened = cb_of_opened::<'a, C>();
    let given = in_event(event);
    match event {
        Event::Message { .. } => {
            lemma_gathered_remove(s.channel, 0, of_msg);
            lemma_gathered_both(s.hands, given, of_hand);
        },
        Event::OpenedHere { .. } => {
            lemma_gathered_remove(s.hands, hand, of_hand);
            lemma_gathered_both(s.hands.remove(hand), given, of_hand);
        },
        Event::OpenedAway { .. } => {
            lemma_gathered_remove(s.back, 0, of_opened);
            lemma_gathered_both(s.hands, given, of_hand);
        },
        Event::HandedOver { sent, .. } => {
            let job = s.hands[hand]->OpenAway_0;
            lemma_gathered_remove(s.hands, hand, of_hand);
            if sent is Ok {
                lemma_gathered_push(s.opens, job, of_open);
                lemma_gathered_both(s.hands.remove(hand), given, of_hand);
            } else {
                lemma_gathered_push(s.hands.remove(hand), Hand::OpenHere(job), of_hand);
                lemma_gathered_both(
                    s.hands.remove(hand).push(Hand::OpenHere(job)),
                    given,
                    of_hand,
                );
            }
        },
        _ => {
            lemma_gathered_both(s.hands, given, of_hand);
        },
    }
    let was = s.driver.waiting().add(event.taken());
    let now = new.waiting().add(event.given());
    assert(was == now);
    assert(next.on_its_way() =~= s.on_its_way()) by {
        assert forall|cb: C| next.on_its_way().count(cb) == s.on_its_way().count(cb) by {
            assert(was.count(cb) == now.count(cb));
        }
    }
}

/// Every action conserves the callbacks.
proof fn lemma_action_conserves<'a, C>(s: System<'a, C>, action: Action<'a, C>)
    requires
        s.conserves(),
        s.enabled(action),
    ensures
        s.next(action).conserves(),
{
    let next = s.next(action);
    let of_msg = cb_of_msg::<'a, C>();
    let of_hand = cb_of_hand::<'a, C>();
    let of_told = cb_of_told::<C>();
    match action {
        Action::Submit { op, cb } => {
            lemma_gathered_push(s.channel, Msg::Submit { id: s.next_op, op, cb }, of_msg);
            lemma_gathered_push(s.told, Told { cb, result: Err(driver_gone_spec()) }, of_told);
        },
        Action::Cancel { id } => {
            lemma_gathered_push(s.channel, Msg::Cancel { id }, of_msg);
        },
        Action::LeaveFront => {},
        Action::Call { event, new, hand } => {
            lemma_call_conserves(s, event, new, hand);
        },
        Action::Tell { hand } => {
            lemma_gathered_remove(s.hands, hand, of_hand);
            if let Hand::Settle { cb, result } = s.hands[hand] {
                lemma_gathered_push(s.told, Told { cb, result }, of_told);
            }
        },
        Action::Perform { hand, result } => {
            lemma_gathered_remove(s.hands, hand, of_hand);
            match s.hands[hand] {
                Hand::Close { cb, .. } | Hand::SetLen { cb, .. } => {
                    lemma_gathered_push(
                        s.hands.remove(hand),
                        Hand::Settle { cb, result: unit_reply(result) },
                        of_hand,
                    );
                },
                _ => {},
            }
        },
        Action::HelperRuns { open, result } => {
            let pending = s.opens[open].pending;
            lemma_gathered_remove(s.opens, open, cb_of_open());
            lemma_gathered_push(s.back, Opened { pending, result }, cb_of_opened());
            lemma_gathered_push(
                s.told,
                Told { cb: pending.cb, result: Err(driver_gone_spec()) },
                of_told,
            );
        },
        Action::ThreadExits | Action::ThreadVanishes | Action::HelpersVanish => {},
    }
    if !(action is Call) {
        let sum = gathered(next.told, of_told).add(next.on_its_way()).add(next.lost);
        assert(next.submitted =~= sum);
    }
}

/// The id of an operation in a message.
pub open spec fn id_of_msg<'a, C>() -> spec_fn(Msg<'a, C>) -> Multiset<u64> {
    |msg: Msg<'a, C>|
        match msg {
            Msg::Submit { id, .. } => Multiset::singleton(id),
            Msg::Cancel { .. } => Multiset::empty(),
        }
}

/// The id of an open in hand that is to go to a helper thread.
pub open spec fn id_of_hand<'a, C>() -> spec_fn(Hand<'a, C>) -> Multiset<u64> {
    |hand: Hand<'a, C>|
        match hand {
            Hand::OpenAway(job) => Multiset::singleton(job.pending.id),
            _ => Multiset::empty(),
        }
}

/// The id of an open.
pub open spec fn id_of_open<'a, C>() -> spec_fn(OpenJob<'a, C>) -> Multiset<u64> {
    |job: OpenJob<'a, C>| Multiset::singleton(job.pending.id)
}

/// The id of an open that was run.
pub open spec fn id_of_opened<'a, C>() -> spec_fn(Opened<'a, C>) -> Multiset<u64> {
    |opened: Opened<'a, C>| Multiset::singleton(opened.pending.id)
}

impl<'a, C> System<'a, C> {
    /// The ids of the opens that are out at the helper threads.
    pub open spec fn out(self) -> Multiset<u64> {
        gathered(self.opens, id_of_open()).add(gathered(self.back, id_of_opened()))
    }

    /// The ids of the opens that are to go there.
    pub open spec fn to_go(self) -> Multiset<u64> {
        gathered(self.hands, id_of_hand())
    }

    /// The ids of the operations that are not yet past their open.
    pub open spec fn ids(self) -> Multiset<u64> {
        gathered(self.channel, id_of_msg()).add(self.to_go()).add(self.out())
    }

    /// The driver knows which opens are out, no two of them having the same
    /// id, and when nothing more can come.
    pub open spec fn knows(self) -> bool {
        &&& forall|id: u64| #[trigger] self.ids().count(id) <= 1
        &&& forall|id: u64| #[trigger] self.ids().count(id) > 0 ==> id < self.next_op
        &&& !self.helpers ==> self.opens.len() == 0
        &&& if self.thread {
            &&& self.driver.wf()
            &&& forall|id: u64| #[trigger] self.out().count(id) > 0
                ==> self.driver.pending_opens.contains(id)
            &&& self.helpers ==> forall|id: u64| #[trigger] self.to_go().count(id) > 0
                ==> self.driver.pending_opens.contains(id)
            &&& self.driver.disconnected ==> !self.front && self.channel.len() == 0
        } else {
            self.channel.len() == 0 && self.hands.len() == 0 && self.back.len() == 0
        }
    }
}

/// How a call changes what the driver knows of the opens that are out.
proof fn lemma_event_pending<'a, C>(
    v: DriverView<'a, C>,
    new: DriverView<'a, C>,
    event: Event<'a, C>,
)
    requires
        v.takes(new, event),
    ensures
        new.errno == v.errno,
        new.disconnected == (v.disconnected || event is SubmittersLost),
        match event {
            Event::Message { msg, after, .. } => match after {
                AfterMsg::Op(Some(Effect::OpenAway(job))) => {
                    &&& msg matches Msg::Submit { id, .. } && id == job.pending.id
                    &&& new.pending_opens == v.pending_opens.insert(job.pending.id)
                },
                _ => new.pending_opens == v.pending_opens,
            },
            Event::OpenedAway { opened, .. } => new.pending_opens == v.pending_opens.remove(
                opened.pending.id,
            ),
            Event::HandedOver { sent: Err(HelperJob::Open(job)), .. } => new.pending_opens
                == v.pending_opens.remove(job.pending.id),
            Event::HelpersLost => new.pending_opens == Set::<u64>::empty(),
            _ => new.pending_opens == v.pending_opens,
        },
{
}

/// The only opens that a call puts into the loop's hands for a helper thread
/// is the one of the message that it was about.
proof fn lemma_hands_to_go<'a, C>(event: Event<'a, C>)
    ensures
        gathered(in_event(event), id_of_hand()) == (match event {
            Event::Message { after: AfterMsg::Op(Some(Effect::OpenAway(job))), .. } =>
                Multiset::singleton(job.pending.id),
            _ => Multiset::empty(),
        }),
{
    let held = id_of_hand::<'a, C>();
    let hands = in_event(event);
    let none = Multiset::<u64>::empty();
    assert(none.add(none) =~= none);
    if hands.len() == 1 {
        lemma_gathered_few(hands[0], hands[0], held);
        assert(hands =~= seq![hands[0]]);
    } else if hands.len() == 2 {
        lemma_gathered_few(hands[0], hands[1], held);
        assert(hands =~= seq![hands[0], hands[1]]);
    }
}

/// A call keeps what the driver knows true.
proof fn lemma_call_knows<'a, C>(
    s: System<'a, C>,
    event: Event<'a, C>,
    new: DriverView<'a, C>,
    hand: int,
)
    requires
        s.knows(),
        s.enabled(Action::Call { event, new, hand }),
    ensures
        s.called(event, new, hand).knows(),
{
    let next = s.called(event, new, hand);
    lemma_event_pending(s.driver, new, event);
    lemma_hands_to_go(event);
    let of_msg = id_of_msg::<'a, C>();
    let of_hand = id_of_hand::<'a, C>();
    let of_open = id_of_open::<'a, C>();
    let of_opened = id_of_opened::<'a, C>();
    let given = in_event(event);
    match event {
        Event::Message { .. } => {
            lemma_gathered_remove(s.channel, 0, of_msg);
            lemma_gathered_both(s.hands, given, of_hand);
        },
        Event::OpenedHere { .. } => {
            lemma_gathered_remove(s.hands, hand, of_hand);
            lemma_gathered_both(s.hands.remove(hand), given, of_hand);
        },
        Event::OpenedAway { .. } => {
            lemma_gathered_remove(s.back, 0, of_opened);
            lemma_gathered_both(s.hands, given, of_hand);
        },
        Event::HandedOver { sent, .. } => {
            let job = s.hands[hand]->OpenAway_0;
            lemma_gathered_remove(s.hands, hand, of_hand);
            if sent is Ok {
                lemma_gathered_push(s.opens, job, of_open);
                lemma_gathered_both(s.hands.remove(hand), given, of_hand);
            } else {
                lemma_gathered_push(s.hands.remove(hand), Hand::OpenHere(job), of_hand);
                lemma_gathered_both(
                    s.hands.remove(hand).push(Hand::OpenHere(job)),
                    given,
                    of_hand,
                );
            }
        },
        _ => {
            lemma_gathered_both(s.hands, given, of_hand);
        },
    }
    assert forall|id: u64| #[trigger] next.ids().count(id) <= s.ids().count(id) by {}
    assert forall|id: u64| #[trigger] next.ids().count(id) <= 1 by {
        assert(s.ids().count(id) <= 1);
    }
    assert forall|id: u64| #[trigger] next.ids().count(id) > 0 implies id < next.next_op by {
        assert(s.ids().count(id) > 0);
    }
    assert forall|id: u64| #[trigger] next.out().count(id) > 0 implies new.pending_opens.contains(
        id,
    ) by {
        assert(s.ids().count(id) <= 1);
        assert(s.out().count(id) > 0 || s.to_go().count(id) > 0);
    }
    if next.helpers {
        assert forall|id: u64| #[trigger] next.to_go().count(id) > 0 implies
            new.pending_opens.contains(id) by {
            assert(s.ids().count(id) <= 1);
        }
    }
}

/// Every action keeps what the driver knows true.
proof fn lemma_action_knows<'a, C>(s: System<'a, C>, action: Action<'a, C>)
    requires
        s.knows(),
        s.enabled(action),
    ensures
        s.next(action).knows(),
{
    let next = s.next(action);
    let of_msg = id_of_msg::<'a, C>();
    let of_hand = id_of_hand::<'a, C>();
    match action {
        Action::Submit { op, cb } => {
            lemma_gathered_push(s.channel, Msg::Submit { id: s.next_op, op, cb }, of_msg);
            assert(s.ids().count(s.next_op) == 0);
            assert forall|id: u64| #[trigger] next.ids().count(id) <= 1 by {
                assert(s.ids().count(id) <= 1);
            }
            assert forall|id: u64| #[trigger] next.ids().count(id) > 0 implies id
                < next.next_op by {
                if id != s.next_op {
                    assert(s.ids().count(id) > 0);
                }
            }
            assert(next.out() == s.out() && next.to_go() == s.to_go());
        },
        Action::Cancel { id } => {
            lemma_gathered_push(s.channel, Msg::Cancel { id }, of_msg);
            assert(next.ids() =~= s.ids());
            assert(next.out() == s.out() && next.to_go() == s.to_go());
        },
        Action::LeaveFront => {
            assert(next.ids() == s.ids());
            assert(next.out() == s.out() && next.to_go() == s.to_go());
        },
        Action::Call { event, new, hand } => {
            lemma_call_knows(s, event, new, hand);
        },
        Action::Tell { hand } => {
            lemma_gathered_remove(s.hands, hand, of_hand);
            assert(next.to_go() =~= s.to_go());
            assert(next.ids() == s.ids() && next.out() == s.out());
        },
        Action::Perform { hand, result } => {
            lemma_gathered_remove(s.hands, hand, of_hand);
            match s.hands[hand] {
                Hand::Close { cb, .. } | Hand::SetLen { cb, .. } => {
                    lemma_gathered_push(
                        s.hands.remove(hand),
                        Hand::Settle { cb, result: unit_reply(result) },
                        of_hand,
                    );
                },
                _ => {},
            }
            assert(next.to_go() =~= s.to_go());
            assert(next.ids() == s.ids() && next.out() == s.out());
        },
        Action::HelperRuns { open, result } => {
            let pending = s.opens[open].pending;
            lemma_gathered_remove(s.opens, open, id_of_open());
            lemma_gathered_push(s.back, Opened { pending, result }, id_of_opened());
            if s.thread {
                assert(next.out() =~= s.out());
                assert(next.ids() == s.ids() && next.to_go() == s.to_go());
            } else {
                assert forall|id: u64| #[trigger] next.ids().count(id) <= s.ids().count(id) by {}
            }
        },
        Action::ThreadExits | Action::ThreadVanishes | Action::HelpersVanish => {
            assert forall|id: u64| #[trigger] next.ids().count(id) <= s.ids().count(id) by {}
            assert forall|id: u64| #[trigger] next.out().count(id) <= s.out().count(id) by {}
            assert forall|id: u64| #[trigger] next.ids().count(id) <= 1 by {
                assert(s.ids().count(id) <= 1);
            }
            assert forall|id: u64| #[trigger] next.ids().count(id) > 0 implies id
                < next.next_op by {
                assert(s.ids().count(id) > 0);
            }
            if next.thread {
                assert(next.to_go() == s.to_go());
                assert forall|id: u64| #[trigger] next.out().count(id) > 0 implies
                    next.driver.pending_opens.contains(id) by {
                    assert(s.out().count(id) > 0);
                }
            }
        },
    }
}

/// A thread that ends by itself takes no callback with it.
proof fn lemma_exit_loses_nothing<'a, C>(s: System<'a, C>)
    requires
        s.knows(),
        s.enabled(Action::ThreadExits),
    ensures
        s.next(Action::ThreadExits).lost == s.lost,
{
    idle_holds_no_callback(s.driver);
    if s.back.len() > 0 {
        lemma_gathered_remove(s.back, 0, id_of_opened());
        assert(s.out().count(s.back[0].pending.id) > 0);
        assert(false);
    }
    assert(s.next(Action::ThreadExits).lost =~= s.lost);
}

/// The transfer that an operation asks for, before its first chunk.
pub open spec fn starts<'a>(op: Op<'a>, start: JobKindView) -> bool {
    &&& start.wf()
    &&& match (op, start) {
        (Op::ReadAt { handle, pos, dest }, JobKindView::Read(read)) => read == read_asked(
            handle,
            read.fd,
            pos,
            dest,
        ),
        (Op::ReadToEnd { handle, pos }, JobKindView::Read(read)) => read == to_end(
            Some(handle),
            read.fd,
            pos,
            read.buf.room(),
        ) && read.buf.room() >= 1,
        (Op::ReadFile { .. }, JobKindView::Read(read)) => read == to_end(
            None,
            read.fd,
            0,
            read.buf.room(),
        ) && read.buf.room() >= 1,
        (Op::WriteAt { handle, pos, data, append }, JobKindView::Write(write)) => write == (
        WriteJobView {
            handle: Some(handle),
            fd: write.fd,
            owned_fd: false,
            pos,
            append,
            data: data@,
            filled: 0,
        }),
        (Op::WriteFile { data, .. }, JobKindView::Write(write)) => write == (WriteJobView {
            handle: None,
            fd: write.fd,
            owned_fd: true,
            pos: 0,
            append: false,
            data: data@,
            filled: 0,
        }),
        (Op::Sync { handle, .. }, JobKindView::Fsync(fsync)) => fsync.handle == handle,
        _ => false,
    }
}

/// A read to end from `pos` on that has brought nothing yet.
pub open spec fn to_end(handle: Option<u64>, fd: i32, pos: u64, room: usize) -> ReadJobView {
    ReadJobView {
        handle,
        fd,
        owned_fd: handle is None,
        pos,
        want: Want::ToEnd,
        buf: ReadBufView::Owned { data: Seq::empty(), room },
        filled: 0,
    }
}

/// The transfer is that of the operation, some chunks on.
pub open spec fn serves<'a>(op: Op<'a>, kind: JobKindView) -> bool {
    exists|start: JobKindView, chunks: Seq<Moved>|
        starts(op, start) && goes_through(start, chunks) && kind == #[trigger] after(start, chunks)
}

/// The operation's own transfer ended with `result`.
pub open spec fn transferred<'a>(op: Op<'a>, result: Result<ReplyView, Error>) -> bool {
    exists|start: JobKindView, chunks: Seq<Moved>, last: Moved|
        starts(op, start) && #[trigger] ends(start, chunks, last, result)
}

/// `result` is what the operation comes to when it completes: what its transfer
/// moved, or what it replies without one.
pub open spec fn completes<'a>(op: Op<'a>, result: Result<ReplyView, Error>) -> bool {
    transferred(op, result) || match op {
        Op::Nop | Op::Close { .. } | Op::SetLen { .. } => result == Ok::<ReplyView, Error>(
            ReplyView::Unit,
        ),
        Op::Open { .. } => result matches Ok(ReplyView::Handle { .. }),
        Op::Size { .. } => result matches Ok(ReplyView::Size(_)),
        Op::ReadFile { inline_max, .. } => result matches Ok(ReplyView::Handle { size, .. }) && size
            > inline_max,
        Op::ReadAt { handle, pos, dest } => dest.len() == 0 && result == Ok::<ReplyView, Error>(
            read_asked(handle, 0, pos, dest).reply(),
        ),
        Op::WriteAt { pos, data, append, .. } => {
            &&& data@.len() == 0
            &&& result matches Ok(ReplyView::Written { n, end }) && n == 0 && (append || end == pos)
        },
        _ => false,
    }
}

/// `result` answers the operation of the callback: it is what the operation
/// came to, or the error of a call that was made for it; or it was cancelled;
/// or its handle, or its driver, was not there.
pub open spec fn answers<'a, C>(
    op: Op<'a>,
    cb: C,
    result: Result<ReplyView, Error>,
    faults: Set<(C, Error)>,
    errno: Errno,
) -> bool {
    ||| completes(op, result)
    ||| result matches Err(e) && faults.contains((cb, e))
    ||| result == Err::<ReplyView, Error>(cancelled_spec(errno))
    ||| result == Err::<ReplyView, Error>(bad_handle_spec()) && op.handle() is Some
    ||| result == Err::<ReplyView, Error>(driver_gone_spec())
}

/// What an open is for is what the operation asks for.
pub open spec fn aims<'a>(op: Op<'a>, goal: AfterOpen<'a>) -> bool {
    match (op, goal) {
        (Op::Open { .. }, AfterOpen::Handle) => true,
        (Op::ReadFile { inline_max, .. }, AfterOpen::ReadFile { inline_max: max }) => inline_max
            == max,
        (Op::WriteFile { data, .. }, AfterOpen::WriteFile { data: payload }) => data == payload,
        _ => false,
    }
}

/// The open is the one that the operation asks for.
pub open spec fn opens_for<'a, C>(op: Op<'a>, job: OpenJob<'a, C>) -> bool {
    &&& aims(op, job.pending.goal)
    &&& match op {
        Op::Open { path, spec } => job.path == path && job.spec == spec,
        Op::ReadFile { path, .. } => job.path == path && job.spec == (OpenSpec {
            read: true,
            ..OpenSpec::none()
        }),
        Op::WriteFile { path, .. } => job.path == path && job.spec == (OpenSpec {
            write: true,
            create: true,
            truncate: true,
            ..OpenSpec::none()
        }),
        _ => false,
    }
}

/// What is in hand belongs to the operation of its callback.
pub open spec fn hand_fits<'a, C>(
    ops: spec_fn(C) -> Op<'a>,
    hand: Hand<'a, C>,
    faults: Set<(C, Error)>,
    errno: Errno,
) -> bool {
    match hand {
        Hand::Settle { cb, result } => answers(ops(cb), cb, result, faults, errno),
        Hand::OpenHere(job) => opens_for(ops(job.pending.cb), job),
        Hand::OpenAway(job) => opens_for(ops(job.pending.cb), job),
        Hand::Close { cb, .. } => ops(cb) is Close,
        Hand::SetLen { size, cb, .. } => ops(cb) matches Op::SetLen { size: asked, .. } && asked
            == size,
    }
}

/// All of the hands do.
pub open spec fn hands_fit<'a, C>(
    ops: spec_fn(C) -> Op<'a>,
    hands: Seq<Hand<'a, C>>,
    faults: Set<(C, Error)>,
    errno: Errno,
) -> bool {
    forall|i: int| 0 <= i < hands.len() ==> hand_fits(ops, #[trigger] hands[i], faults, errno)
}

/// The jobs are those of the operations of their callbacks.
pub open spec fn jobs_fit<'a, C>(ops: spec_fn(C) -> Op<'a>, jobs: Seq<Job<'a, C>>) -> bool {
    forall|i: int| 0 <= i < jobs.len() ==> serves(ops((#[trigger] jobs[i]).cb), jobs[i].kind@)
}

/// All that the driver holds belongs to the operations of its callbacks.
pub open spec fn driver_fits<'a, C>(ops: spec_fn(C) -> Op<'a>, v: DriverView<'a, C>) -> bool {
    &&& jobs_fit(ops, v.queue)
    &&& jobs_fit(ops, v.inflight)
    &&& v.submitting matches Some(job) ==> serves(ops(job.cb), job.kind@)
    &&& forall|h: u64| #[trigger]
        v.files.contains_key(h) ==> (v.files[h].closing matches Some(cb) ==> ops(cb) == (Op::Close {
            handle: h,
        }))
}

/// A transfer that has not begun serves its operation.
proof fn lemma_starts<'a>(op: Op<'a>, start: JobKindView)
    requires
        starts(op, start),
    ensures
        serves(op, start),
{
    let none = Seq::<Moved>::empty();
    assert(goes_through(start, none) && after(start, none) == start);
}

/// A chunk leads the transfer of an operation on, or ends it.
proof fn lemma_serves_on<'a>(op: Op<'a>, kind: JobKindView, chunk: Moved)
    requires
        serves(op, kind),
        kind.accepts(chunk.n, chunk.bytes),
    ensures
        match kind.settles(chunk.n, chunk.bytes, chunk.stat) {
            Some(result) => transferred(op, result),
            None => serves(op, kind.goes_on(chunk.n, chunk.bytes)),
        },
{
    let (start, chunks) = choose|start: JobKindView, chunks: Seq<Moved>|
        starts(op, start) && goes_through(start, chunks) && kind == #[trigger] after(start, chunks);
    match kind.settles(chunk.n, chunk.bytes, chunk.stat) {
        Some(result) => {
            assert(ends(start, chunks, chunk, result));
        },
        None => {
            let more = chunks.push(chunk);
            assert(more.drop_last() =~= chunks);
            assert(goes_through(start, more));
            assert(after(start, more) == kind.goes_on(chunk.n, chunk.bytes));
        },
    }
}

/// A job that is gone takes along nothing but its own count and the close that
/// waited for it.
proof fn lemma_released_fits<'a, C>(
    ops: spec_fn(C) -> Op<'a>,
    v: DriverView<'a, C>,
    handle: Option<u64>,
)
    requires
        driver_fits(ops, v),
        handle matches Some(h) ==> v.files.contains_key(h),
    ensures
        driver_fits(ops, v.released(handle)),
{
    if let Some(h) = handle {
        assert(v.files.contains_key(h));
        let new = v.released(handle);
        assert forall|k: u64| #[trigger] new.files.contains_key(k) implies (
        new.files[k].closing matches Some(cb) ==> ops(cb) == (Op::Close { handle: k })) by {
            assert(v.files.contains_key(k));
        }
    }
}

/// The end of a job puts fitting things into the loop's hands.
proof fn lemma_finish_fits<'a, C>(
    ops: spec_fn(C) -> Op<'a>,
    v: DriverView<'a, C>,
    job: Job<'a, C>,
    result: Result<ReplyView, Error>,
    unread: bool,
    finish: Finish<C>,
    faults: Set<(C, Error)>,
    errno: Errno,
)
    requires
        driver_fits(ops, v),
        v.finishes(job@, result, unread, finish),
        job.kind@.handle() matches Some(h) ==> v.files.contains_key(h),
        answers(ops(job.cb), job.cb, result, faults, errno),
    ensures
        hands_fit(ops, in_finish::<'a, C>(finish), faults, errno),
{
    if let Some(h) = job.kind@.handle() {
        assert(v.files.contains_key(h));
    }
}

/// A job at the end of the queue that is that of its callback's operation fits.
proof fn lemma_enqueued_fits<'a, C>(
    ops: spec_fn(C) -> Op<'a>,
    v: DriverView<'a, C>,
    new: DriverView<'a, C>,
    id: u64,
    kind: JobKindView,
    cb: C,
)
    requires
        driver_fits(ops, v),
        new.wf(),
        v.enqueued(new, JobView { id, cancelled: false, kind, cb }),
        kind.handle() matches Some(h) ==> v.files.contains_key(h),
        kind.wf() ==> starts(ops(cb), kind),
    ensures
        driver_fits(ops, new),
{
    let n = new.queue.len() - 1;
    assert(new.sound(new.queue[n]));
    assert(new.queue.last() == new.queue[n]);
    lemma_starts(ops(cb), kind);
    assert forall|i: int| 0 <= i < new.queue.len() implies serves(
        ops((#[trigger] new.queue[i]).cb),
        new.queue[i].kind@,
    ) by {
        if i < n {
            assert(new.queue[i] == new.queue.drop_last()[i]);
            assert(new.queue[i] == v.queue[i]);
        } else {
            assert(new.queue[i]@.kind == kind && new.queue[i]@.cb == cb);
        }
    }
    assert forall|k: u64| #[trigger] new.files.contains_key(k) implies (
    new.files[k].closing matches Some(c) ==> ops(c) == (Op::Close { handle: k })) by {
        assert(v.files.contains_key(k));
    }
}

/// An operation that the driver takes is answered fittingly, or becomes a
/// fitting job.
proof fn lemma_op_fits<'a, C>(
    ops: spec_fn(C) -> Op<'a>,
    v: DriverView<'a, C>,
    new: DriverView<'a, C>,
    event: Event<'a, C>,
    faults: Set<(C, Error)>,
)
    requires
        v.takes(new, event),
        driver_fits(ops, v),
        event matches Event::Message { msg, .. } && (msg matches Msg::Submit { op, cb, .. } && ops(
            cb,
        ) == op),
        faults_in(v, event).subset_of(faults),
    ensures
        driver_fits(ops, new),
        hands_fit(ops, in_event(event), faults, v.errno),
{
    if let Event::Message { msg, unread, stat, after } = event {
        if let Msg::Submit { id, op, cb } = msg {
            let woken = DriverView { progress: true, ..v };
            assert(driver_fits(ops, woken));
            if let Err(e) = stat {
                assert(faults_in(v, event).contains((cb, e)));
            }
            if new.queue.len() > v.queue.len() {
                let job = new.queue.last()@;
                assert(new.sound(new.queue[new.queue.len() - 1]));
                lemma_enqueued_fits(ops, woken, new, id, job.kind, cb);
            } else if op is Close {
                assert forall|k: u64| #[trigger] new.files.contains_key(k) implies (
                new.files[k].closing matches Some(c) ==> ops(c) == (Op::Close { handle: k })) by {
                    if v.files.contains_key(k) {
                    }
                }
            }
        }
    }
}

/// A cancel request leaves everything fitting.
proof fn lemma_cancel_fits<'a, C>(
    ops: spec_fn(C) -> Op<'a>,
    v: DriverView<'a, C>,
    new: DriverView<'a, C>,
    event: Event<'a, C>,
    faults: Set<(C, Error)>,
)
    requires
        v.takes(new, event),
        driver_fits(ops, v),
        event matches Event::Message { msg, .. } && msg is Cancel,
    ensures
        driver_fits(ops, new),
        hands_fit(ops, in_event(event), faults, v.errno),
{
    if let Event::Message { msg, unread, after, .. } = event {
        if let Msg::Cancel { id } = msg {
            let woken = DriverView { progress: true, ..v };
            let q = find(v.queue, id, 0);
            let f = find(v.inflight, id, 0);
            lemma_find(v.queue, id, 0);
            lemma_find(v.inflight, id, 0);
            if q < v.queue.len() {
                let job = v.queue[q];
                let rest = DriverView { queue: woken.queue.remove(q), ..woken };
                assert(v.sound(job));
                assert(driver_fits(ops, rest));
                lemma_released_fits(ops, rest, job.kind@.handle());
                if let AfterMsg::Cancel(CancelStep::Finished(finish)) = after {
                    lemma_finish_fits(
                        ops,
                        rest,
                        job,
                        Err(cancelled_spec(v.errno)),
                        unread,
                        finish,
                        faults,
                        v.errno,
                    );
                }
            } else if f < v.inflight.len() {
                assert forall|i: int| 0 <= i < new.inflight.len() implies serves(
                    ops((#[trigger] new.inflight[i]).cb),
                    new.inflight[i].kind@,
                ) by {
                    assert(serves(ops(v.inflight[i].cb), v.inflight[i].kind@));
                }
            }
        }
    }
}

/// The place that a search finds is in the list or at its end.
proof fn lemma_find<'a, C>(jobs: Seq<Job<'a, C>>, id: u64, from: int)
    requires
        0 <= from <= jobs.len(),
    ensures
        from <= find(jobs, id, from) <= jobs.len(),
    decreases jobs.len() - from,
{
    if from < jobs.len() && jobs[from].id != id {
        lemma_find(jobs, id, from + 1);
    }
}

/// An open that came back is answered fittingly, or becomes a fitting job.
proof fn lemma_continues_fits<'a, C>(
    ops: spec_fn(C) -> Op<'a>,
    v: DriverView<'a, C>,
    new: DriverView<'a, C>,
    pending: PendingOpen<'a, C>,
    result: Result<(i32, u64), Error>,
    settled: Option<Settlement<C>>,
    faults: Set<(C, Error)>,
    errno: Errno,
)
    requires
        driver_fits(ops, v),
        new.wf(),
        v.continues(new, pending, result, settled),
        aims(ops(pending.cb), pending.goal),
        result matches Err(e) ==> faults.contains((pending.cb, e)),
    ensures
        driver_fits(ops, new),
        settled matches Some(s) ==> hand_fits(ops, to_settle::<'a, C>(s), faults, errno),
{
    if new.queue.len() > v.queue.len() {
        let job = new.queue.last()@;
        lemma_enqueued_fits(ops, v, new, pending.id, job.kind, pending.cb);
    } else {
        assert forall|k: u64| #[trigger] new.files.contains_key(k) implies (
        new.files[k].closing matches Some(c) ==> ops(c) == (Op::Close { handle: k })) by {
            if v.files.contains_key(k) {
            }
        }
    }
}

/// How a call to the kernel went leaves everything fitting.
proof fn lemma_launch_fits<'a, C>(
    ops: spec_fn(C) -> Op<'a>,
    v: DriverView<'a, C>,
    new: DriverView<'a, C>,
    event: Event<'a, C>,
    faults: Set<(C, Error)>,
)
    requires
        v.takes(new, event),
        driver_fits(ops, v),
        event is NextJob || event is Submitted,
        faults_in(v, event).subset_of(faults),
    ensures
        driver_fits(ops, new),
        hands_fit(ops, in_event(event), faults, v.errno),
{
    match event {
        Event::NextJob { .. } => {
            if v.queue.len() > 0 {
                assert(serves(ops(v.queue[0].cb), v.queue[0].kind@));
            }
        },
        Event::Submitted { accepted, unread, after } => {
            let job = v.submitting->0;
            let rest = DriverView { submitting: None, ..v };
            assert(v.sound(job));
            assert(driver_fits(ops, rest));
            match accepted {
                Ok(()) => {},
                Err(code) => {
                    assert(faults_in(v, event).contains((job.cb, Error::Os(code))));
                    lemma_released_fits(ops, rest, job.kind@.handle());
                    if let AfterSubmit::Finished(finish) = after {
                        lemma_finish_fits(
                            ops,
                            rest,
                            job,
                            Err(Error::Os(code)),
                            unread,
                            finish,
                            faults,
                            v.errno,
                        );
                    }
                },
            }
        },
        _ => {},
    }
}

/// A blocking call leaves everything fitting.
proof fn lemma_blocked_fits<'a, C>(
    ops: spec_fn(C) -> Op<'a>,
    v: DriverView<'a, C>,
    new: DriverView<'a, C>,
    event: Event<'a, C>,
    faults: Set<(C, Error)>,
)
    requires
        v.takes(new, event),
        driver_fits(ops, v),
        event is Blocked,
        faults_in(v, event).subset_of(faults),
    ensures
        driver_fits(ops, new),
        hands_fit(ops, in_event(event), faults, v.errno),
{
    if let Event::Blocked { moved, unread, finished } = event {
        let job = v.submitting->0;
        let rest = DriverView { submitting: None, ..v };
        assert(v.sound(job));
        assert(driver_fits(ops, rest));
        lemma_released_fits(ops, rest, job.kind@.handle());
        let result = match moved {
            Ok(chunk) => job.kind@.settles(chunk.n, chunk.bytes@, chunk.stat),
            Err(code) => Some(Err(Error::Os(code))),
        };
        match moved {
            Ok(chunk) => {
                let m = Moved { n: chunk.n, bytes: chunk.bytes@, stat: chunk.stat };
                lemma_serves_on(ops(job.cb), job.kind@, m);
            },
            Err(code) => {
                assert(faults_in(v, event).contains((job.cb, Error::Os(code))));
            },
        }
        if let Some(result) = result {
            lemma_finish_fits(ops, rest, job, result, unread, finished->0, faults, v.errno);
        }
    }
}

/// The kernel's word on a request leaves everything fitting.
proof fn lemma_reaped_fits<'a, C>(
    ops: spec_fn(C) -> Op<'a>,
    v: DriverView<'a, C>,
    new: DriverView<'a, C>,
    event: Event<'a, C>,
    faults: Set<(C, Error)>,
)
    requires
        v.takes(new, event),
        driver_fits(ops, v),
        event is Reaped,
        faults_in(v, event).subset_of(faults),
    ensures
        driver_fits(ops, new),
        hands_fit(ops, in_event(event), faults, v.errno),
{
    if let Event::Reaped { index, err, chunk, unread, after } = event {
        if err != v.errno.in_progress {
            let i = index as int;
            let job = v.inflight[i];
            let rest = DriverView {
                inflight: v.inflight.update(i, v.inflight.last()).drop_last(),
                progress: true,
                ..v
            };
            assert(v.sound(job));
            assert(serves(ops(job.cb), job.kind@));
            assert forall|k: int| 0 <= k < rest.inflight.len() implies serves(
                ops((#[trigger] rest.inflight[k]).cb),
                rest.inflight[k].kind@,
            ) by {
                if k == i {
                    assert(rest.inflight[k] == v.inflight[v.inflight.len() - 1]);
                } else {
                    assert(rest.inflight[k] == v.inflight[k]);
                }
            }
            assert(driver_fits(ops, rest));
            lemma_released_fits(ops, rest, job.kind@.handle());
            if err == 0 {
                let m = Moved { n: chunk.n, bytes: chunk.bytes@, stat: chunk.stat };
                lemma_serves_on(ops(job.cb), job.kind@, m);
                match after {
                    AfterReap::Finished(finish) => {
                        let result = match job.kind@.settles(chunk.n, chunk.bytes@, chunk.stat) {
                            Some(result) => result,
                            None => Err(cancelled_spec(v.errno)),
                        };
                        lemma_finish_fits(ops, rest, job, result, unread, finish, faults, v.errno);
                    },
                    _ => {
                        assert forall|k: int| 0 <= k < new.queue.len() implies serves(
                            ops((#[trigger] new.queue[k]).cb),
                            new.queue[k].kind@,
                        ) by {
                            if k == 0 {
                                assert(new.queue[0]@.kind == job.kind@.goes_on(m.n, m.bytes));
                                assert(new.queue[0]@.cb == job.cb);
                            } else {
                                assert(new.queue[k] == new.queue.skip(1)[k - 1]);
                                assert(new.queue[k] == v.queue[k - 1]);
                            }
                        }
                    },
                }
            } else {
                assert(faults_in(v, event).contains((job.cb, Error::Os(err))));
                if let AfterReap::Finished(finish) = after {
                    lemma_finish_fits(
                        ops,
                        rest,
                        job,
                        Err(Error::Os(err)),
                        unread,
                        finish,
                        faults,
                        v.errno,
                    );
                }
            }
        }
    }
}

/// A call of the driver leaves everything fitting: what it holds, and what the
/// loop has in hand after it.
proof fn lemma_event_fits<'a, C>(
    ops: spec_fn(C) -> Op<'a>,
    v: DriverView<'a, C>,
    new: DriverView<'a, C>,
    event: Event<'a, C>,
    faults: Set<(C, Error)>,
)
    requires
        v.takes(new, event),
        driver_fits(ops, v),
        !(event is Registered),
        match event {
            Event::Message { msg, .. } => msg matches Msg::Submit { op, cb, .. } ==> ops(cb) == op,
            Event::OpenedHere { pending, .. } => aims(ops(pending.cb), pending.goal),
            Event::OpenedAway { opened, .. } => aims(ops(opened.pending.cb), opened.pending.goal),
            _ => true,
        },
        faults_in(v, event).subset_of(faults),
    ensures
        driver_fits(ops, new),
        hands_fit(ops, in_event(event), faults, v.errno),
{
    match event {
        Event::Message { msg, .. } => {
            if msg is Submit {
                lemma_op_fits(ops, v, new, event, faults);
            } else {
                lemma_cancel_fits(ops, v, new, event, faults);
            }
        },
        Event::OpenedHere { pending, result, settled } => {
            if let Err(e) = result {
                assert(faults_in(v, event).contains((pending.cb, e)));
            }
            lemma_continues_fits(ops, v, new, pending, result, settled, faults, v.errno);
        },
        Event::OpenedAway { opened, after } => {
            let id = opened.pending.id;
            let back = DriverView {
                progress: true,
                pending_opens: v.pending_opens.remove(id),
                cancelled_opens: v.cancelled_opens.remove(id),
                ..v
            };
            assert(driver_fits(ops, back));
            if let Err(e) = opened.result {
                assert(faults_in(v, event).contains((opened.pending.cb, e)));
            }
            match after {
                AfterReturn::Settled(s) => lemma_continues_fits(
                    ops,
                    back,
                    new,
                    opened.pending,
                    opened.result,
                    Some(s),
                    faults,
                    v.errno,
                ),
                AfterReturn::Queued => lemma_continues_fits(
                    ops,
                    back,
                    new,
                    opened.pending,
                    opened.result,
                    None,
                    faults,
                    v.errno,
                ),
                AfterReturn::Cancelled { .. } => {},
            }
        },
        Event::NextJob { .. } | Event::Submitted { .. } => {
            lemma_launch_fits(ops, v, new, event, faults);
        },
        Event::Blocked { .. } => lemma_blocked_fits(ops, v, new, event, faults),
        Event::Reaped { .. } => lemma_reaped_fits(ops, v, new, event, faults),
        _ => {},
    }
}

impl<'a, C> System<'a, C> {
    /// Everything in the system belongs to the operation of its callback, and
    /// every callback that was called was answered fittingly.
    pub open spec fn fits(self, ops: spec_fn(C) -> Op<'a>) -> bool {
        &&& forall|i: int| 0 <= i < self.channel.len() ==> (#[trigger] self.channel[i] matches
            Msg::Submit { op, cb, .. } ==> ops(cb) == op)
        &&& self.thread ==> driver_fits(ops, self.driver)
        &&& hands_fit(ops, self.hands, self.faults, self.driver.errno)
        &&& forall|i: int| 0 <= i < self.opens.len() ==> opens_for(
            ops((#[trigger] self.opens[i]).pending.cb),
            self.opens[i],
        )
        &&& forall|i: int| 0 <= i < self.back.len() ==> aims(
            ops((#[trigger] self.back[i]).pending.cb),
            self.back[i].pending.goal,
        )
        &&& forall|i: int| 0 <= i < self.told.len() ==> #[trigger] self.answered(ops, i)
    }

    /// The callback that was called as number `i` was answered fittingly.
    pub open spec fn answered(self, ops: spec_fn(C) -> Op<'a>, i: int) -> bool {
        let told = self.told[i];
        answers(ops(told.cb), told.cb, told.result, self.faults, self.driver.errno)
    }

    /// Whether `actions` can happen one after the other.
    pub open spec fn runs(self, actions: Seq<Action<'a, C>>) -> bool
        decreases actions.len(),
    {
        actions.len() == 0 || {
            &&& self.runs(actions.drop_last())
            &&& self.end(actions.drop_last()).enabled(actions.last())
        }
    }

    /// The state after `actions`.
    pub open spec fn end(self, actions: Seq<Action<'a, C>>) -> Self
        decreases actions.len(),
    {
        if actions.len() == 0 {
            self
        } else {
            self.end(actions.drop_last()).next(actions.last())
        }
    }
}

/// The callback that an action submits.
pub open spec fn cb_of_action<'a, C>() -> spec_fn(Action<'a, C>) -> Multiset<C> {
    |action: Action<'a, C>|
        match action {
            Action::Submit { cb, .. } => Multiset::singleton(cb),
            _ => Multiset::empty(),
        }
}

/// Every callback is submitted with its own operation.
pub open spec fn own_operations<'a, C>(
    ops: spec_fn(C) -> Op<'a>,
    actions: Seq<Action<'a, C>>,
) -> bool {
    forall|i: int| 0 <= i < actions.len() ==> (#[trigger] actions[i] matches Action::Submit {
        op,
        cb,
    } ==> ops(cb) == op)
}

/// No thread goes but by its own end.
pub open spec fn unharmed<'a, C>(actions: Seq<Action<'a, C>>) -> bool {
    forall|i: int| 0 <= i < actions.len() ==> !(#[trigger] actions[i] is ThreadVanishes)
        && !(actions[i] is HelpersVanish)
}

/// What fits still fits when more errors have been brought.
proof fn lemma_more_faults<'a, C>(
    ops: spec_fn(C) -> Op<'a>,
    hands: Seq<Hand<'a, C>>,
    faults: Set<(C, Error)>,
    more: Set<(C, Error)>,
    errno: Errno,
)
    requires
        faults.subset_of(more),
        hands_fit(ops, hands, faults, errno),
    ensures
        hands_fit(ops, hands, more, errno),
{
    assert forall|i: int| 0 <= i < hands.len() implies hand_fits(
        ops,
        #[trigger] hands[i],
        more,
        errno,
    ) by {
        assert(hand_fits(ops, hands[i], faults, errno));
    }
}

/// A call of the driver leaves everything in the system fitting.
proof fn lemma_call_fits<'a, C>(
    s: System<'a, C>,
    event: Event<'a, C>,
    new: DriverView<'a, C>,
    hand: int,
    ops: spec_fn(C) -> Op<'a>,
)
    requires
        s.fits(ops),
        s.enabled(Action::Call { event, new, hand }),
    ensures
        s.called(event, new, hand).fits(ops),
{
    let next = s.called(event, new, hand);
    let errno = s.driver.errno;
    lemma_event_pending(s.driver, new, event);
    if event is OpenedHere || event is HandedOver {
        assert(hand_fits(ops, s.hands[hand], s.faults, errno));
    }
    lemma_event_fits(ops, s.driver, new, event, next.faults);
    lemma_more_faults(ops, s.hands, s.faults, next.faults, errno);
    let given = in_event(event);
    assert forall|i: int| 0 <= i < next.hands.len() implies hand_fits(
        ops,
        #[trigger] next.hands[i],
        next.faults,
        errno,
    ) by {
        let before = next.hands.len() - given.len();
        if i >= before {
            assert(next.hands[i] == given[i - before]);
        } else if event is OpenedHere || event is HandedOver {
            if i < hand {
                assert(next.hands[i] == s.hands[i]);
            } else if i < s.hands.len() - 1 {
                assert(next.hands[i] == s.hands[i + 1]);
            }
        } else {
            assert(next.hands[i] == s.hands[i]);
        }
    }
    assert forall|i: int| 0 <= i < next.told.len() implies #[trigger] next.answered(ops, i) by {
        assert(s.answered(ops, i));
    }
    assert forall|i: int| 0 <= i < next.channel.len() implies (
    #[trigger] next.channel[i] matches Msg::Submit { op, cb, .. } ==> ops(cb) == op) by {
        if event is Message {
            assert(next.channel[i] == s.channel[i + 1]);
        }
    }
    assert forall|i: int| 0 <= i < next.back.len() implies aims(
        ops((#[trigger] next.back[i]).pending.cb),
        next.back[i].pending.goal,
    ) by {
        if event is OpenedAway {
            assert(next.back[i] == s.back[i + 1]);
        }
    }
}

/// Every action leaves everything in the system fitting.
proof fn lemma_action_fits<'a, C>(
    s: System<'a, C>,
    action: Action<'a, C>,
    ops: spec_fn(C) -> Op<'a>,
)
    requires
        s.fits(ops),
        s.enabled(action),
        action matches Action::Submit { op, cb } ==> ops(cb) == op,
    ensures
        s.next(action).fits(ops),
{
    let next = s.next(action);
    if let Action::Call { event, new, hand } = action {
        lemma_call_fits(s, event, new, hand, ops);
    } else {
        let errno = s.driver.errno;
        assert(s.faults.subset_of(next.faults));
        lemma_more_faults(ops, s.hands, s.faults, next.faults, errno);
        match action {
            Action::Tell { hand } => {
                assert(hand_fits(ops, s.hands[hand], s.faults, errno));
            },
            Action::Perform { hand, .. } => {
                assert(hand_fits(ops, s.hands[hand], s.faults, errno));
            },
            _ => {},
        }
        assert forall|i: int| 0 <= i < next.hands.len() implies hand_fits(
            ops,
            #[trigger] next.hands[i],
            next.faults,
            errno,
        ) by {
            match action {
                Action::Tell { hand } | Action::Perform { hand, .. } => {
                    if i < hand {
                        assert(next.hands[i] == s.hands[i]);
                    } else if i < s.hands.len() - 1 {
                        assert(next.hands[i] == s.hands[i + 1]);
                    }
                },
                _ => {
                    assert(next.hands[i] == s.hands[i]);
                },
            }
        }
        assert forall|i: int| 0 <= i < next.told.len() implies #[trigger] next.answered(ops, i) by {
            if i < s.told.len() {
                assert(s.answered(ops, i));
            }
        }
        assert forall|i: int| 0 <= i < next.opens.len() implies opens_for(
            ops((#[trigger] next.opens[i]).pending.cb),
            next.opens[i],
        ) by {
            if let Action::HelperRuns { open, .. } = action {
                if i < open {
                    assert(next.opens[i] == s.opens[i]);
                } else {
                    assert(next.opens[i] == s.opens[i + 1]);
                }
            }
        }
        if let Action::HelperRuns { open, .. } = action {
            assert(opens_for(ops(s.opens[open].pending.cb), s.opens[open]));
        }
    }
}

/// Whatever order the threads act in, every callback that is submitted is
/// called once: those that were called, those on their way, and those that went
/// down with a thread are together those that were submitted. None goes down
/// unless a thread does not end by itself; and with nothing on its way exactly
/// those that were submitted were called. Each was called with what its own
/// operation came to, with the error of a call that was made for it, as
/// cancelled, or because its handle or the driver's thread was not there.
///
/// `ops` gives the operation that each callback is submitted with.
pub proof fn every_callback_is_called_once_with_its_own_result<'a, C>(
    start: System<'a, C>,
    actions: Seq<Action<'a, C>>,
    ops: spec_fn(C) -> Op<'a>,
)
    requires
        start.initial(),
        start.runs(actions),
        own_operations(ops, actions),
    ensures
        ({
            let end = start.end(actions);
            let submitted = gathered(actions, cb_of_action());
            let told = gathered(end.told, cb_of_told());
            &&& submitted == told.add(end.on_its_way()).add(end.lost)
            &&& unharmed(actions) ==> end.lost == Multiset::<C>::empty()
            &&& unharmed(actions) && end.on_its_way() == Multiset::<C>::empty() ==> told == submitted
            &&& end.fits(ops)
            &&& end.knows()
        }),
    decreases actions.len(),
{
    let end = start.end(actions);
    let none = Multiset::<C>::empty();
    if actions.len() == 0 {
        lemma_initial(start, ops);
        assert(gathered(actions, cb_of_action::<'a, C>()) == none);
    } else {
        let before = actions.drop_last();
        let action = actions.last();
        let s = start.end(before);
        assert forall|i: int| 0 <= i < before.len() implies (
        #[trigger] before[i] matches Action::Submit { op, cb } ==> ops(cb) == op) by {
            assert(before[i] == actions[i]);
        }
        assert(action == actions[actions.len() - 1]);
        every_callback_is_called_once_with_its_own_result(start, before, ops);
        lemma_submitted(start, before);
        lemma_action_conserves(s, action);
        lemma_action_knows(s, action);
        lemma_action_fits(s, action, ops);
        if unharmed(actions) {
            assert forall|i: int| 0 <= i < before.len() implies !(
            #[trigger] before[i] is ThreadVanishes) && !(before[i] is HelpersVanish) by {
                assert(before[i] == actions[i]);
            }
            if action is ThreadExits {
                lemma_exit_loses_nothing(s);
            }
        }
    }
    lemma_submitted(start, actions);
    let told = gathered(end.told, cb_of_told());
    if end.lost == none && end.on_its_way() == none {
        assert(told.add(none).add(none) =~= told);
    }
}

/// The callbacks that were submitted are those of the submissions.
proof fn lemma_submitted<'a, C>(start: System<'a, C>, actions: Seq<Action<'a, C>>)
    requires
        start.initial(),
    ensures
        start.end(actions).submitted == gathered(actions, cb_of_action()),
    decreases actions.len(),
{
    let end = start.end(actions);
    if actions.len() > 0 {
        lemma_submitted(start, actions.drop_last());
        assert(end.submitted =~= gathered(actions, cb_of_action()));
    }
}

/// In the beginning nothing is out of place.
proof fn lemma_initial<'a, C>(s: System<'a, C>, ops: spec_fn(C) -> Op<'a>)
    requires
        s.initial(),
    ensures
        s.conserves(),
        s.knows(),
        s.fits(ops),
{
    idle_holds_no_callback(s.driver);
    let none = Multiset::<C>::empty();
    assert(gathered(s.told, cb_of_told()).add(s.on_its_way()).add(s.lost) =~= none);
    assert(s.ids() =~= Multiset::<u64>::empty());
    assert(s.out() =~= Multiset::<u64>::empty());
    assert(s.to_go() =~= Multiset::<u64>::empty());
}

/// What [`Driver::submit`](crate::submit::Driver::submit) sends and settles is
/// what a submission does here, where a message goes out exactly while the
/// driver's thread is there.
pub proof fn a_submission_is_a_step_of_the_system<'a, C>(
    s: System<'a, C>,
    op: Op<'a>,
    cb: C,
    before: Seq<Msg<'a, C>>,
    after: Seq<Msg<'a, C>>,
    settled: Option<Settlement<C>>,
)
    requires
        sends(s.next_op, op, cb, before, after, settled),
        settled is None <==> s.thread,
    ensures
        s.next(Action::Submit { op, cb }).channel == s.channel + after.skip(before.len() as int),
        match settled {
            None => s.next(Action::Submit { op, cb }).told == s.told,
            Some(t) => s.next(Action::Submit { op, cb }).told == s.told.push(
                Told { cb: t.cb, result: outcome(t.result) },
            ),
        },
        s.next(Action::Submit { op, cb }).next_op == id_after(s.next_op),
{
    let next = s.next(Action::Submit { op, cb });
    assert(next.channel =~= s.channel + after.skip(before.len() as int));
}

/// Without a driver thread the callback is called before the submission
/// returns, and told so.
pub proof fn without_a_driver_thread_a_callback_is_called_at_once<'a, C>(
    s: System<'a, C>,
    op: Op<'a>,
    cb: C,
)
    requires
        !s.thread,
        s.enabled(Action::Submit { op, cb }),
    ensures
        s.next(Action::Submit { op, cb }).told == s.told.push(
            Told { cb, result: Err(driver_gone_spec()) },
        ),
        s.next(Action::Submit { op, cb }).on_its_way() == s.on_its_way(),
{
}

/// A callback on its way is never forgotten: it is in a channel, in the hands
/// of the loop or of a helper thread, or the driver is busy and does not wait.
pub proof fn a_callback_on_its_way_is_never_forgotten<'a, C>(s: System<'a, C>)
    requires
        s.knows(),
        s.on_its_way() != Multiset::<C>::empty(),
    ensures
        s.channel.len() > 0 || s.hands.len() > 0 || s.opens.len() > 0 || s.back.len() > 0 || (
        s.thread && s.driver.waits() == Wait::Busy),
{
    if s.thread && s.driver.idle() {
        idle_holds_no_callback(s.driver);
    }
    if s.channel.len() == 0 && s.hands.len() == 0 && s.opens.len() == 0 && s.back.len() == 0
        && !(s.thread && s.driver.waits() == Wait::Busy) {
        assert(s.on_its_way() =~= Multiset::<C>::empty());
    }
}

} // verus!
