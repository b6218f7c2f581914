//! The queueing driver with its channels: submissions in, opens out to the
//! helper threads, descriptors back.

use vstd::multiset::Multiset;
use vstd::prelude::*;

use crate::aio::Driver;
use crate::channel::{Polled, Rx, Tx};
use crate::effect::{orphaned, FileEntry, HelperJob, Opened, Orphan};
use crate::error::driver_gone_spec;
use crate::host::Errno;
use crate::limits::SUSPEND_MIN_NS;
use crate::op::Msg;
use crate::state::DriverView;

verus! {

/// The driver and its ends of the channels.
#[verifier::reject_recursive_types(C)]
pub struct Port<'a, C> {
    pub driver: Driver<'a, C>,
    pub rx: Rx<Msg<'a, C>>,
    pub helper_tx: Tx<HelperJob<'a, C>>,
    pub back_rx: Rx<Opened<'a, C>>,
}

impl<'a, C> Port<'a, C> {
    /// A fresh driver on the given channels.
    pub fn new(
        rx: Rx<Msg<'a, C>>,
        helper_tx: Tx<HelperJob<'a, C>>,
        back_rx: Rx<Opened<'a, C>>,
        max_inflight: usize,
        errno: Errno,
    ) -> (port: Self)
        requires
            errno.wf(),
        ensures
            port.rx == rx,
            port.helper_tx == helper_tx,
            port.back_rx == back_rx,
            port.driver@.wf(),
            port.driver@ == (DriverView {
                errno,
                pending_opens: Set::empty(),
                cancelled_opens: Set::empty(),
                helpers_gone: false,
                files: Map::<u64, FileEntry<C>>::empty(),
                next_id: 1,
                inflight: Seq::empty(),
                submitting: None,
                queue: Seq::empty(),
                max_inflight,
                disconnected: false,
                suspend_ns: SUSPEND_MIN_NS,
                progress: false,
            }),
            port.driver@.waiting() == Multiset::<C>::empty(),
    {
        Port { driver: Driver::new(max_inflight, errno), rx, helper_tx, back_rx }
    }

    /// Whether submissions wait to be taken: the channel is looked at once,
    /// and nothing is taken out.
    pub fn unread(&mut self) -> (yes: bool)
        ensures
            final(self).rx.looks() == old(self).rx.looks().push(!yes),
            final(self).rx.polls() == old(self).rx.polls(),
            final(self).rx.raw_end() == old(self).rx.raw_end(),
            final(self).driver == old(self).driver,
            final(self).helper_tx == old(self).helper_tx,
            final(self).back_rx == old(self).back_rx,
    {
        !self.rx.is_empty()
    }

    /// Take a submission if one is there, and note when no more can come. The
    /// channel is asked once, and whatever leaves it is handed over.
    pub fn take_msg(&mut self) -> (msg: Option<Msg<'a, C>>)
        requires
            old(self).driver@.wf(),
        ensures
            final(self).driver@.wf(),
            ({
                let polled = final(self).rx.polls().last();
                &&& final(self).rx.polls() == old(self).rx.polls().push(polled)
                &&& match polled {
                    Polled::Item(m) => msg == Some(m) && final(self).driver@ == old(self).driver@,
                    Polled::Empty => msg is None && final(self).driver@ == old(self).driver@,
                    Polled::Disconnected => msg is None && final(self).driver@ == (DriverView {
                        disconnected: true,
                        ..old(self).driver@
                    }),
                }
            }),
            final(self).rx.looks() == old(self).rx.looks(),
            final(self).driver@.waiting() == old(self).driver@.waiting(),
            final(self).rx.raw_end() == old(self).rx.raw_end(),
            final(self).helper_tx == old(self).helper_tx,
            final(self).back_rx == old(self).back_rx,
    {
        let polled = self.rx.try_recv();
        self.driver.heard(polled)
    }

    /// Take a descriptor that a helper sent back if one is there, and note
    /// when no more can come. The channel is asked once, and whatever leaves it
    /// is handed over.
    pub fn take_opened(&mut self) -> (opened: Option<Opened<'a, C>>)
        requires
            old(self).driver@.wf(),
        ensures
            final(self).driver@.wf(),
            ({
                let polled = final(self).back_rx.polls().last();
                &&& final(self).back_rx.polls() == old(self).back_rx.polls().push(polled)
                &&& match polled {
                    Polled::Item(o) => opened == Some(o) && final(self).driver@
                        == old(self).driver@,
                    Polled::Empty => opened is None && final(self).driver@ == old(self).driver@,
                    Polled::Disconnected => opened is None && final(self).driver@ == (DriverView {
                        helpers_gone: true,
                        pending_opens: Set::empty(),
                        ..old(self).driver@
                    }),
                }
            }),
            final(self).back_rx.looks() == old(self).back_rx.looks(),
            final(self).driver@.waiting() == old(self).driver@.waiting(),
            final(self).rx == old(self).rx,
            final(self).helper_tx == old(self).helper_tx,
            final(self).back_rx.raw_end() == old(self).back_rx.raw_end(),
    {
        let polled = self.back_rx.try_recv();
        self.driver.heard_back(polled)
    }

    /// Hand a job to the helper threads. It is offered to them in any case, and
    /// comes back, to be run here, when none of them is left.
    pub fn hand_over(&mut self, job: HelperJob<'a, C>) -> (back: Option<HelperJob<'a, C>>)
        requires
            old(self).driver@.wf(),
        ensures
            final(self).driver@.wf(),
            final(self).helper_tx.offered() == old(self).helper_tx.offered().push(job),
            match back {
                None => {
                    &&& final(self).driver@ == old(self).driver@
                    &&& final(self).helper_tx.sent() == old(self).helper_tx.sent().push(job)
                },
                Some(b) => {
                    &&& b == job
                    &&& final(self).driver@ == old(self).driver@.without(job)
                    &&& final(self).helper_tx.sent() == old(self).helper_tx.sent()
                },
            },
            final(self).driver@.waiting() == old(self).driver@.waiting(),
            final(self).rx == old(self).rx,
            final(self).back_rx == old(self).back_rx,
    {
        let sent = self.helper_tx.send(job);
        self.driver.handed(sent)
    }
}

/// Send an open that a helper ran back to the driver. It is offered to the
/// driver in any case; what comes out is left to settle when the driver is
/// gone.
pub fn give_back<'a, C>(back: &mut Tx<Opened<'a, C>>, opened: Opened<'a, C>) -> (orphan: Option<
    Orphan<C>,
>)
    ensures
        final(back).offered() == old(back).offered().push(opened),
        match orphan {
            None => final(back).sent() == old(back).sent().push(opened),
            Some(o) => {
                &&& final(back).sent() == old(back).sent()
                &&& o.close == (match opened.result {
                    Ok((fd, _)) => Some(fd),
                    Err(_) => None,
                })
                &&& o.settled.tells(opened.pending.cb, Err(driver_gone_spec()))
            },
        },
{
    match back.send(opened) {
        Ok(()) => None,
        Err(opened) => Some(orphaned(opened)),
    }
}

} // verus!
