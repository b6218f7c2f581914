//! Completions on their way from the driver thread to an event loop: one wake
//! for a burst of them, and none lost.
//!
//! The driver thread pushes a completion, then arms the bridge, and rings the
//! doorbell only when the bridge was not armed yet. The loop, once woken, takes
//! the queue again and again until it finds it empty, disarms the bridge, and
//! looks once more: a push that raced the disarming is taken up.

use std::collections::HashMap;

use vstd::prelude::*;

use crate::host::Errno;

verus! {

broadcast use vstd::std_specs::hash::group_hash_axioms;

/// Whether the thread that just armed the bridge has to ring.
pub open spec fn has_to_ring(was_armed: bool, alive: bool) -> bool {
    !was_armed && alive
}

/// Whether the thread that just armed the bridge rings: it was not armed
/// before, and the interpreter is not shutting down.
pub fn rings(was_armed: bool, alive: bool) -> (yes: bool)
    ensures
        yes == (!was_armed && alive),
        yes == has_to_ring(was_armed, alive),
{
    !was_armed && alive
}

/// Where the loop's side of the bridge stands between two of its accesses to
/// the shared state.
#[derive(Debug, Clone, Copy, PartialEq, Eq, Structural)]
pub enum Drain {
    /// Nothing to do until the next wake.
    Idle,
    /// Take everything that is queued.
    Taking,
    /// The queue was empty: disarm the bridge.
    Emptied,
    /// The bridge is disarmed: look whether the queue is still empty.
    Disarmed,
    /// It is not: arm the bridge again.
    Rearming,
}

impl Drain {
    /// After everything was taken.
    pub open spec fn after_take(none: bool) -> Drain {
        if none {
            Drain::Emptied
        } else {
            Drain::Taking
        }
    }

    /// After the second look at the queue.
    pub open spec fn after_recheck(empty: bool) -> Drain {
        if empty {
            Drain::Idle
        } else {
            Drain::Rearming
        }
    }

    /// After the bridge was armed again: another thread that did so first also
    /// rings, and the next wake takes up the work.
    pub open spec fn after_rearm(was_armed: bool) -> Drain {
        if was_armed {
            Drain::Idle
        } else {
            Drain::Taking
        }
    }

    /// The loop was woken.
    pub fn woken() -> (next: Drain)
        ensures
            next == Drain::Taking,
    {
        Drain::Taking
    }

    /// The queue was taken; `none` tells that nothing was in it.
    pub fn took(none: bool) -> (next: Drain)
        ensures
            next == Drain::after_take(none),
    {
        if none {
            Drain::Emptied
        } else {
            Drain::Taking
        }
    }

    /// The bridge was disarmed.
    pub fn disarmed() -> (next: Drain)
        ensures
            next == Drain::Disarmed,
    {
        Drain::Disarmed
    }

    /// The queue was looked at again.
    pub fn rechecked(empty: bool) -> (next: Drain)
        ensures
            next == Drain::after_recheck(empty),
    {
        if empty {
            Drain::Idle
        } else {
            Drain::Rearming
        }
    }

    /// The bridge was armed again.
    pub fn rearmed(was_armed: bool) -> (next: Drain)
        ensures
            next == Drain::after_rearm(was_armed),
    {
        if was_armed {
            Drain::Idle
        } else {
            Drain::Taking
        }
    }
}

/// The bridge with the threads on both sides of it, while the interpreter is
/// not shutting down.
pub struct World<T> {
    /// What was pushed, and not taken yet.
    pub queue: Seq<T>,
    pub armed: bool,
    /// Whether a wake is pending at the loop.
    pub wake: bool,
    pub drain: Drain,
    /// Threads that pushed, and have not armed the bridge yet.
    pub to_arm: nat,
    /// Threads that armed the bridge, and have not rung yet.
    pub to_ring: nat,
    /// Everything that was ever pushed, and what was delivered.
    pub pushed: Seq<T>,
    pub delivered: Seq<T>,
}

/// One atomic access of one of the threads.
pub enum Access<T> {
    Push(T),
    Arm,
    Ring,
    Wake,
    Take,
    Disarm,
    Recheck,
    Rearm,
}

impl<T> World<T> {
    /// Nothing happened yet.
    pub open spec fn initial() -> World<T> {
        World {
            queue: Seq::empty(),
            armed: false,
            wake: false,
            drain: Drain::Idle,
            to_arm: 0,
            to_ring: 0,
            pushed: Seq::empty(),
            delivered: Seq::empty(),
        }
    }

    /// Whether the access can come next.
    pub open spec fn enabled(self, access: Access<T>) -> bool {
        match access {
            Access::Push(_) => true,
            Access::Arm => self.to_arm > 0,
            Access::Ring => self.to_ring > 0,
            Access::Wake => self.drain == Drain::Idle && self.wake,
            Access::Take => self.drain == Drain::Taking,
            Access::Disarm => self.drain == Drain::Emptied,
            Access::Recheck => self.drain == Drain::Disarmed,
            Access::Rearm => self.drain == Drain::Rearming,
        }
    }

    /// The world after the access. A wake swallows every one that is pending.
    pub open spec fn after(self, access: Access<T>) -> World<T> {
        match access {
            Access::Push(item) => World {
                queue: self.queue.push(item),
                pushed: self.pushed.push(item),
                to_arm: self.to_arm + 1,
                ..self
            },
            Access::Arm => World {
                armed: true,
                to_arm: (self.to_arm - 1) as nat,
                to_ring: if self.armed {
                    self.to_ring
                } else {
                    self.to_ring + 1
                },
                ..self
            },
            Access::Ring => World { wake: true, to_ring: (self.to_ring - 1) as nat, ..self },
            Access::Wake => World { wake: false, drain: Drain::Taking, ..self },
            Access::Take => World {
                queue: Seq::empty(),
                delivered: self.delivered + self.queue,
                drain: Drain::after_take(self.queue.len() == 0),
                ..self
            },
            Access::Disarm => World { armed: false, drain: Drain::Disarmed, ..self },
            Access::Recheck => World {
                drain: Drain::after_recheck(self.queue.len() == 0),
                ..self
            },
            Access::Rearm => World {
                armed: true,
                drain: Drain::after_rearm(self.armed),
                ..self
            },
        }
    }

    /// Whoever armed the bridge rings or has rung unless the loop is at work;
    /// and an idle loop with work before it has someone who will arm.
    pub open spec fn inv(self) -> bool {
        &&& self.armed && (self.drain == Drain::Idle || self.drain == Drain::Disarmed || self.drain
            == Drain::Rearming) ==> self.to_ring > 0 || self.wake
        &&& self.queue.len() > 0 && !self.armed && self.drain == Drain::Idle ==> self.to_arm > 0
        &&& self.delivered + self.queue == self.pushed
    }

    /// Whether `accesses` can happen one after the other.
    pub open spec fn runs(self, accesses: Seq<Access<T>>) -> bool
        decreases accesses.len(),
    {
        accesses.len() == 0 || {
            &&& self.runs(accesses.drop_last())
            &&& self.end(accesses.drop_last()).enabled(accesses.last())
        }
    }

    /// The world after `accesses`.
    pub open spec fn end(self, accesses: Seq<Access<T>>) -> World<T>
        decreases accesses.len(),
    {
        if accesses.len() == 0 {
            self
        } else {
            self.end(accesses.drop_last()).after(accesses.last())
        }
    }

    /// No thread is in the middle of anything and no wake is pending.
    pub open spec fn quiet(self) -> bool {
        self.drain == Drain::Idle && self.to_arm == 0 && self.to_ring == 0 && !self.wake
    }
}

/// Every access of any thread keeps the invariant.
pub proof fn every_access_keeps_the_bridge_sound<T>(world: World<T>, access: Access<T>)
    requires
        world.inv(),
        world.enabled(access),
    ensures
        world.after(access).inv(),
{
    let next = world.after(access);
    match access {
        Access::Push(item) => {
            assert(next.delivered + next.queue =~= (world.delivered + world.queue).push(item));
        },
        Access::Take => {
            assert(next.delivered + next.queue =~= world.delivered + world.queue);
        },
        _ => {},
    }
}

/// No wake is lost. However the threads interleave, once they are all at rest
/// every completion that was pushed has been delivered, in the order of the
/// pushes.
pub proof fn no_completion_is_left_behind<T>(accesses: Seq<Access<T>>)
    requires
        World::<T>::initial().runs(accesses),
    ensures
        ({
            let end = World::<T>::initial().end(accesses);
            &&& end.inv()
            &&& end.quiet() ==> end.queue.len() == 0 && end.delivered == end.pushed
        }),
    decreases accesses.len(),
{
    let end = World::<T>::initial().end(accesses);
    if accesses.len() > 0 {
        no_completion_is_left_behind(accesses.drop_last());
        every_access_keeps_the_bridge_sound(
            World::<T>::initial().end(accesses.drop_last()),
            accesses.last(),
        );
    } else {
        assert(end.delivered + end.queue =~= end.pushed);
    }
    if end.quiet() {
        assert(end.delivered + end.queue =~= end.delivered);
    }
}

/// As long as work is queued, some thread has its next access before it: the
/// loop is at work, a wake is pending, or a thread is about to arm or to ring.
pub proof fn queued_work_is_always_on_its_way<T>(world: World<T>)
    requires
        world.inv(),
        world.queue.len() > 0,
    ensures
        world.drain != Drain::Idle || world.enabled(Access::Wake) || world.enabled(Access::Arm)
            || world.enabled(Access::Ring),
{
}

/// A burst costs one wake: while the bridge is armed, no push rings again.
pub proof fn an_armed_bridge_rings_no_more<T>(world: World<T>)
    requires
        world.armed,
        world.enabled(Access::Arm),
    ensures
        world.after(Access::Arm).to_ring == world.to_ring,
        world.after(Access::Arm).wake == world.wake,
{
}

/// The thread that arms a bridge rings just when the bridge counts on it to:
/// the first to arm an idle one does, nobody else does, and nobody does once
/// the interpreter shuts down.
pub proof fn the_first_to_arm_rings<T>(world: World<T>)
    requires
        world.enabled(Access::Arm),
    ensures
        world.after(Access::Arm).to_ring == world.to_ring + (if has_to_ring(world.armed, true) {
            1int
        } else {
            0int
        }),
        !has_to_ring(world.armed, false),
        !world.armed ==> has_to_ring(world.armed, true),
{
}

/// Whether a wake byte has to be written again.
pub open spec fn wake_again(n: Result<usize, i32>, errno: Errno) -> bool {
    n matches Err(code) && code == errno.interrupted
}

/// Whether the pipe has to be read again to swallow its wake bytes.
pub open spec fn swallow_again(n: Result<usize, i32>, errno: Errno) -> bool {
    match n {
        Ok(n) => n > 0,
        Err(code) => code == errno.interrupted,
    }
}

/// A wake byte is written once: what was written, and a pipe that is full and
/// so holds a wake, is not written again; only an interruption is. The pipe is
/// read until it says that it is empty or closed, and an interruption does not
/// say so.
pub proof fn a_wake_is_written_once_and_swallowed_whole(n: usize, code: i32, errno: Errno)
    requires
        errno.wf(),
    ensures
        !wake_again(Ok(n), errno),
        !wake_again(Err(errno.again), errno),
        wake_again(Err(code), errno) <==> code == errno.interrupted,
        swallow_again(Ok(n), errno) <==> n != 0,
        !swallow_again(Err(errno.again), errno),
        swallow_again(Err(code), errno) <==> code == errno.interrupted,
{
}

/// Whether the write of a wake byte is repeated: it was interrupted before it
/// wrote. A full pipe already holds a wake, and any other failure means that
/// nobody listens any more.
pub fn ring_again(n: Result<usize, i32>, errno: &Errno) -> (again: bool)
    ensures
        again == (n == Err::<usize, i32>(errno.interrupted)),
        again == wake_again(n, *errno),
{
    match n {
        Ok(_) => false,
        Err(code) => code == errno.interrupted,
    }
}

/// Whether the pipe is read once more to swallow its wake bytes: there were
/// some, or the read was interrupted. Otherwise it is empty or closed.
pub fn quiet_again(n: Result<usize, i32>, errno: &Errno) -> (again: bool)
    ensures
        again == (match n {
            Ok(n) => n > 0,
            Err(code) => code == errno.interrupted,
        }),
        again == swallow_again(n, *errno),
{
    match n {
        Ok(n) => n > 0,
        Err(code) => code == errno.interrupted,
    }
}

/// The bridges of the loops that use this library, by the identity of the
/// loop.
pub struct Registry<B> {
    pub bridges: HashMap<u64, B>,
}

impl<B> View for Registry<B> {
    type V = Map<u64, B>;

    open spec fn view(&self) -> Map<u64, B> {
        self.bridges@
    }
}

impl<B> Registry<B> {
    /// No loop yet.
    pub fn new() -> (registry: Self)
        ensures
            registry@ == Map::<u64, B>::empty(),
    {
        Registry { bridges: HashMap::new() }
    }

    /// The bridge of the loop.
    pub fn find(&self, key: u64) -> (bridge: Option<&B>)
        ensures
            match bridge {
                Some(b) => self@.contains_key(key) && *b == self@[key],
                None => !self@.contains_key(key),
            },
    {
        self.bridges.get(&key)
    }

    /// Drop the bridges of loops that are closed.
    pub fn prune(&mut self, closed: &Vec<u64>)
        ensures
            final(self)@ == old(self)@.remove_keys(closed@.to_set()),
    {
        let mut i: usize = 0;
        while i < closed.len()
            invariant
                0 <= i <= closed@.len(),
                forall|k: u64|
                    #[trigger] self@.contains_key(k) <==> old(self)@.contains_key(k)
                        && !closed@.take(i as int).contains(k),
                forall|k: u64| #[trigger] self@.contains_key(k) ==> self@[k] == old(self)@[k],
            decreases closed@.len() - i,
        {
            proof {
                let now = closed@.take(i as int);
                let next = closed@.take(i + 1);
                assert(next =~= now.push(closed@[i as int]));
                assert forall|k: u64| next.contains(k) <==> now.contains(k) || k
                    == closed@[i as int] by {
                    if now.contains(k) {
                        let j = choose|j: int| 0 <= j < now.len() && now[j] == k;
                        assert(next[j] == k);
                    }
                    if k == closed@[i as int] {
                        assert(next[i as int] == k);
                    }
                }
            }
            let key: u64 = closed[i];
            let ghost before = self@;
            self.bridges.remove(&key);
            assert(self@ =~= before.remove(key));
            i = i + 1;
        }
        assert(closed@.take(closed@.len() as int) =~= closed@);
        assert(self@ =~= old(self)@.remove_keys(closed@.to_set()));
    }

    /// Keep the bridge of a loop.
    pub fn insert(&mut self, key: u64, bridge: B)
        ensures
            final(self)@ == old(self)@.insert(key, bridge),
    {
        self.bridges.insert(key, bridge);
    }

    /// Drop the bridge of a loop that takes no more wakes.
    pub fn remove(&mut self, key: u64)
        ensures
            final(self)@ == old(self)@.remove(key),
    {
        self.bridges.remove(&key);
        assert(self@ =~= old(self)@.remove(key));
    }

    /// Drop every bridge.
    pub fn clear(&mut self)
        ensures
            final(self)@ == Map::<u64, B>::empty(),
    {
        self.bridges.clear();
    }
}

/// A change of the registry, by the method that makes it.
pub enum Change<B> {
    Insert { key: u64, bridge: B },
    Remove { key: u64 },
    Prune { closed: Seq<u64> },
    Clear,
}

/// The registry after a change.
pub open spec fn changed<B>(bridges: Map<u64, B>, change: Change<B>) -> Map<u64, B> {
    match change {
        Change::Insert { key, bridge } => bridges.insert(key, bridge),
        Change::Remove { key } => bridges.remove(key),
        Change::Prune { closed } => bridges.remove_keys(closed.to_set()),
        Change::Clear => Map::empty(),
    }
}

/// The registry after several changes.
pub open spec fn changed_by<B>(bridges: Map<u64, B>, changes: Seq<Change<B>>) -> Map<u64, B>
    decreases changes.len(),
{
    if changes.len() == 0 {
        bridges
    } else {
        changed(changed_by(bridges, changes.drop_last()), changes.last())
    }
}

/// Whether the change leaves the loop `key` alone: it neither replaces nor
/// removes its bridge, nor lists the loop as closed.
pub open spec fn spares<B>(change: Change<B>, key: u64) -> bool {
    match change {
        Change::Insert { key: k, .. } => k != key,
        Change::Remove { key: k } => k != key,
        Change::Prune { closed } => !closed.contains(key),
        Change::Clear => false,
    }
}

/// A change touches no loop but the one it is about.
pub proof fn a_spared_loop_is_untouched<B>(bridges: Map<u64, B>, change: Change<B>, key: u64)
    requires
        spares(change, key),
    ensures
        changed(bridges, change).contains_key(key) == bridges.contains_key(key),
        bridges.contains_key(key) ==> changed(bridges, change)[key] == bridges[key],
{
}

/// A bridge that was inserted is found until it is removed, replaced or listed
/// as closed, whatever happens to the other loops.
pub proof fn an_inserted_bridge_is_found<B>(
    bridges: Map<u64, B>,
    key: u64,
    bridge: B,
    changes: Seq<Change<B>>,
)
    requires
        forall|i: int| 0 <= i < changes.len() ==> spares(#[trigger] changes[i], key),
    ensures
        changed_by(changed(bridges, Change::Insert { key, bridge }), changes).contains_key(key),
        changed_by(changed(bridges, Change::Insert { key, bridge }), changes)[key] == bridge,
    decreases changes.len(),
{
    if changes.len() > 0 {
        let before = changes.drop_last();
        assert forall|i: int| 0 <= i < before.len() implies spares(#[trigger] before[i], key) by {
            assert(before[i] == changes[i]);
        }
        an_inserted_bridge_is_found(bridges, key, bridge, before);
        assert(changes.last() == changes[changes.len() - 1]);
        a_spared_loop_is_untouched(
            changed_by(changed(bridges, Change::Insert { key, bridge }), before),
            changes.last(),
            key,
        );
    }
}

/// A request for the bridge of the running loop: the loop, the loops that are
/// closed by then, and the bridge that is built if the loop has none.
pub struct Request<B> {
    pub key: u64,
    pub closed: Seq<u64>,
    pub fresh: B,
}

/// Whether the request builds a bridge.
pub open spec fn builds<B>(bridges: Map<u64, B>, request: Request<B>) -> bool {
    !bridges.contains_key(request.key)
}

/// The registry after a request: a loop that has a bridge keeps it; otherwise
/// the bridges of closed loops are dropped, and the new one is kept.
pub open spec fn served<B>(bridges: Map<u64, B>, request: Request<B>) -> Map<u64, B> {
    if builds(bridges, request) {
        changed(
            changed(bridges, Change::Prune { closed: request.closed }),
            Change::Insert { key: request.key, bridge: request.fresh },
        )
    } else {
        bridges
    }
}

/// The bridge that the request gives.
pub open spec fn gives<B>(bridges: Map<u64, B>, request: Request<B>) -> B {
    served(bridges, request)[request.key]
}

/// A loop keeps its bridge: a later request under the same loop gives the same
/// one and builds nothing, unless that was removed or the loop listed as closed
/// in between.
pub proof fn a_loop_keeps_its_bridge<B>(
    bridges: Map<u64, B>,
    first: Request<B>,
    changes: Seq<Change<B>>,
    again: Request<B>,
)
    requires
        again.key == first.key,
        forall|i: int| 0 <= i < changes.len() ==> spares(#[trigger] changes[i], first.key),
    ensures
        ({
            let later = changed_by(served(bridges, first), changes);
            &&& !builds(later, again)
            &&& served(later, again) == later
            &&& gives(later, again) == gives(bridges, first)
        }),
{
    let now = served(bridges, first);
    let bridge = now[first.key];
    assert(now.insert(first.key, bridge) =~= now);
    an_inserted_bridge_is_found(now, first.key, bridge, changes);
}

/// A request that builds a bridge first drops those of closed loops, and keeps
/// those of the others.
pub proof fn building_drops_the_bridges_of_closed_loops<B>(
    bridges: Map<u64, B>,
    request: Request<B>,
    key: u64,
)
    requires
        builds(bridges, request),
        key != request.key,
    ensures
        served(bridges, request).contains_key(key) <==> bridges.contains_key(key)
            && !request.closed.contains(key),
        served(bridges, request).contains_key(key) ==> served(bridges, request)[key]
            == bridges[key],
{
}

/// No two loops share a bridge.
pub open spec fn unshared<B>(bridges: Map<u64, B>) -> bool {
    forall|a: u64, b: u64|
        a != b && #[trigger] bridges.contains_key(a) && #[trigger] bridges.contains_key(b)
            ==> bridges[a] != bridges[b]
}

/// Two loops never get the same bridge, as long as a bridge that is built is a
/// new one.
pub proof fn loops_share_no_bridge<B>(bridges: Map<u64, B>, one: Request<B>, other: Request<B>)
    requires
        unshared(bridges),
        !bridges.contains_value(one.fresh),
        !served(bridges, one).contains_value(other.fresh),
        one.key != other.key,
    ensures
        unshared(served(bridges, one)),
        gives(served(bridges, one), other) != gives(bridges, one),
{
    let now = served(bridges, one);
    assert(now.contains_key(one.key));
    if builds(bridges, one) {
        assert forall|a: u64, b: u64|
            a != b && #[trigger] now.contains_key(a) && #[trigger] now.contains_key(
                b,
            ) implies now[a] != now[b] by {
            if a != one.key {
                assert(bridges.contains_key(a));
            }
            if b != one.key {
                assert(bridges.contains_key(b));
            }
        }
    }
}

/// What to do for the driver of this process.
#[derive(Debug, Clone, Copy, PartialEq, Eq, Structural)]
pub enum DriverFor {
    /// Use the one there is.
    Keep,
    /// Start one. With `forget_loops`, the one there is belongs to a parent
    /// process, and so do all the bridges.
    Start { forget_loops: bool },
}

/// What the process `pid` does for its driver, given the process that started
/// the one there is.
pub open spec fn driver_of(pid: u32, started_by: Option<u32>) -> DriverFor {
    match started_by {
        Some(stored) if stored == pid => DriverFor::Keep,
        _ => DriverFor::Start { forget_loops: started_by is Some },
    }
}

/// A process uses the driver that it started itself and no other: without one
/// it starts one, and keeps that from then on. A child that finds its parent's
/// forgets the bridges that came with it; who finds none has none to forget.
pub proof fn a_process_uses_its_own_driver(pid: u32, parent: u32)
    requires
        pid != parent,
    ensures
        driver_of(pid, Some(pid)) is Keep,
        driver_of(pid, Some(parent)) matches DriverFor::Start { forget_loops } && forget_loops,
        driver_of(pid, None) matches DriverFor::Start { forget_loops } && !forget_loops,
{
}

/// Which driver the process `pid` uses, given the process that started the one
/// there is. A forked child starts its own: its parent's driver thread does
/// not exist in it.
pub fn driver_for(pid: u32, started_by: Option<u32>) -> (what: DriverFor)
    ensures
        what == (match started_by {
            Some(stored) if stored == pid => DriverFor::Keep,
            _ => DriverFor::Start { forget_loops: started_by is Some },
        }),
        what == driver_of(pid, started_by),
{
    match started_by {
        Some(stored) => if stored == pid {
            DriverFor::Keep
        } else {
            DriverFor::Start { forget_loops: true }
        },
        None => DriverFor::Start { forget_loops: false },
    }
}

} // verus!
