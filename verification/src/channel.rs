//! Unbounded message channels between threads, over `flume`.
//!
//! What a channel holds is the business of every thread that has an end of it,
//! so a call here says only what holds whatever the others do.

use vstd::prelude::*;

verus! {

/// `flume::Sender`, the sending end of a channel. Nothing is said of what the
/// channel holds.
#[verifier::external_type_specification]
#[verifier::external_body]
#[verifier::reject_recursive_types(T)]
pub struct ExSender<T>(flume::Sender<T>);

/// `flume::Receiver`, the receiving end of a channel. Nothing is said of what
/// the channel holds.
#[verifier::external_type_specification]
#[verifier::external_body]
#[verifier::reject_recursive_types(T)]
pub struct ExReceiver<T>(flume::Receiver<T>);

/// `flume::unbounded`: the two ends of a new channel without a bound. Nothing
/// is said of them.
#[verifier::external_body]
fn flume_unbounded<T>() -> (ends: (flume::Sender<T>, flume::Receiver<T>)) {
    flume::unbounded()
}

/// `flume::Sender::send`, on the sender of an unbounded channel, where it never
/// waits: it succeeds, or hands the very message back because every receiver
/// is gone. Which of the two depends on the other threads and is left unsaid.
#[verifier::external_body]
fn flume_send<T>(tx: &flume::Sender<T>, item: T) -> (sent: Result<(), T>)
    ensures
        sent matches Err(back) ==> back == item,
{
    tx.send(item).map_err(flume::SendError::into_inner)
}

/// `flume::Sender`'s `clone`: another end of the same channel. Nothing is said
/// of it.
#[verifier::external_body]
fn flume_another<T>(tx: &flume::Sender<T>) -> (another: flume::Sender<T>) {
    tx.clone()
}

/// `flume::Receiver::try_recv`: a message, or that there is none yet, or that
/// there never will be one. It depends on the other threads, and nothing is
/// said of it.
#[verifier::external_body]
fn flume_try_recv<T>(rx: &flume::Receiver<T>) -> (polled: Polled<T>) {
    match rx.try_recv() {
        Ok(item) => Polled::Item(item),
        Err(flume::TryRecvError::Empty) => Polled::Empty,
        Err(flume::TryRecvError::Disconnected) => Polled::Disconnected,
    }
}

/// `flume::Receiver::is_empty`. It depends on the other threads, and nothing
/// is said of it.
#[verifier::external_body]
fn flume_is_empty<T>(rx: &flume::Receiver<T>) -> (empty: bool) {
    rx.is_empty()
}

/// What a look into a channel found.
#[derive(Debug, PartialEq, Eq)]
pub enum Polled<T> {
    Item(T),
    /// No message yet.
    Empty,
    /// No message, and no sender is left.
    Disconnected,
}

/// A sending end of an unbounded channel, the messages that it was given, and
/// those of them that went out.
#[verifier::reject_recursive_types(T)]
pub struct Tx<T> {
    end: flume::Sender<T>,
    offered: Ghost<Seq<T>>,
    sent: Ghost<Seq<T>>,
}

/// The receiving end of an unbounded channel, and what it answered when it was
/// asked.
#[verifier::reject_recursive_types(T)]
pub struct Rx<T> {
    end: flume::Receiver<T>,
    polls: Ghost<Seq<Polled<T>>>,
    looks: Ghost<Seq<bool>>,
}

/// A new channel.
pub fn unbounded<T>() -> (ends: (Tx<T>, Rx<T>))
    ensures
        ends.0.offered() == Seq::<T>::empty(),
        ends.0.sent() == Seq::<T>::empty(),
        ends.1.polls() == Seq::<Polled<T>>::empty(),
        ends.1.looks() == Seq::<bool>::empty(),
{
    let (tx, rx) = flume_unbounded();
    (
        Tx { end: tx, offered: Ghost(Seq::empty()), sent: Ghost(Seq::empty()) },
        Rx { end: rx, polls: Ghost(Seq::empty()), looks: Ghost(Seq::empty()) },
    )
}

impl<T> Tx<T> {
    /// The messages that this end was given to send, in their order, whether
    /// they went out or came back. [`Tx::send`] keeps this log beside its call
    /// of `flume`; no contract ties the log to what `flume` did.
    pub closed spec fn offered(self) -> Seq<T> {
        self.offered@
    }

    /// The messages that went out by this end, in their order. [`Tx::send`]
    /// keeps this log by the answer of `flume`; no contract ties the log to
    /// what `flume` did.
    pub closed spec fn sent(self) -> Seq<T> {
        self.sent@
    }

    /// Send a message. It comes back when no receiver is left.
    pub fn send(&mut self, item: T) -> (sent: Result<(), T>)
        ensures
            final(self).offered() == old(self).offered().push(item),
            match sent {
                Ok(()) => final(self).sent() == old(self).sent().push(item),
                Err(back) => back == item && final(self).sent() == old(self).sent(),
            },
    {
        let ghost message = item;
        proof {
            self.offered@ = self.offered@.push(message);
        }
        match flume_send(&self.end, item) {
            Ok(()) => {
                proof {
                    self.sent@ = self.sent@.push(message);
                }
                Ok(())
            },
            Err(back) => Err(back),
        }
    }

    /// Another sending end of the same channel, by which nothing went out yet.
    pub fn another(&self) -> (tx: Tx<T>)
        ensures
            tx.offered() == Seq::<T>::empty(),
            tx.sent() == Seq::<T>::empty(),
    {
        Tx {
            end: flume_another(&self.end),
            offered: Ghost(Seq::empty()),
            sent: Ghost(Seq::empty()),
        }
    }
}

impl<T> Rx<T> {
    /// The answers of [`Rx::try_recv`], in their order: the messages that it
    /// took out of the channel, and the times that it found none. `try_recv`
    /// keeps this log by the answers of `flume`; no contract ties the log to
    /// what `flume` did.
    pub closed spec fn polls(self) -> Seq<Polled<T>> {
        self.polls@
    }

    /// The answers of [`Rx::is_empty`], in their order. `is_empty` keeps this
    /// log by the answers of `flume`; no contract ties the log to what `flume`
    /// did.
    pub closed spec fn looks(self) -> Seq<bool> {
        self.looks@
    }

    /// Look for a message without waiting for one, and take it out. Which
    /// answer comes is up to the senders and the other receivers.
    pub fn try_recv(&mut self) -> (polled: Polled<T>)
        ensures
            final(self).polls() == old(self).polls().push(polled),
            final(self).looks() == old(self).looks(),
            final(self).raw_end() == old(self).raw_end(),
    {
        let polled = flume_try_recv(&self.end);
        proof {
            self.polls@ = self.polls@.push(polled);
        }
        polled
    }

    /// Whether no message is waiting. Which answer comes is up to the senders
    /// and the other receivers.
    pub fn is_empty(&mut self) -> (empty: bool)
        ensures
            final(self).looks() == old(self).looks().push(empty),
            final(self).polls() == old(self).polls(),
            final(self).raw_end() == old(self).raw_end(),
    {
        let empty = flume_is_empty(&self.end);
        proof {
            self.looks@ = self.looks@.push(empty);
        }
        empty
    }

    /// The end as `flume` has it.
    pub closed spec fn raw_end(&self) -> flume::Receiver<T> {
        self.end
    }

    /// The end as `flume` has it, to wait on.
    pub fn raw(&self) -> (end: &flume::Receiver<T>)
        ensures
            *end == self.raw_end(),
    {
        &self.end
    }
}

} // verus!
