//! The polling contract every simulated machine must satisfy.

use vstd::prelude::*;

use crate::channel::{Channel, Network};
use crate::{Fault, MachineId, Time};

verus! {

/// A pluggable simulated entity.
///
/// The engine is the only caller of these methods, and it guarantees —
/// and proves — that the `time` handed to `poll` and `add_connection`
/// never decreases across calls on one machine.  In exchange, every
/// implementation promises that it touches only the endpoint buffers it
/// was handed through `add_connection`, and that it never asks to be
/// woken before the time it was just polled or connected at.
pub trait Machine: Sized {
    /// Is this machine internally consistent?
    spec fn wf(&self) -> bool;

    /// The largest time this machine has observed so far.
    spec fn last_time(&self) -> Time;

    /// The wake-up request this machine currently reports: what
    /// `poll_at` returns.
    spec fn next_wake(&self) -> Option<Time>;

    /// The arena indices of every endpoint buffer this machine may read
    /// or write.
    spec fn bufs_used(&self) -> Set<int>;

    /// The fatal fault, if any, that one poll at `time` over the given
    /// buffer contents reports.  Pinning this as a function of the
    /// machine's state makes a fault impossible to invent or suppress:
    /// `poll` fails exactly when this says so.
    spec fn poll_fault(&self, time: Time, net: Seq<Seq<u8>>) -> Option<Fault>;

    /// Constructs the machine with no connections.  A machine with no
    /// connections is dormant: it reports no wake-up request.
    fn start(id: MachineId) -> (m: Self)
        ensures
            m.wf(),
            m.last_time() == 0,
            m.next_wake() is None,
            m.bufs_used() == Set::<int>::empty(),
    ;

    /// Registers a new link.  The machine may use `time` to decide, for
    /// example, whether to send immediately or wait.
    fn add_connection(&mut self, channel: Channel, time: Time)
        requires
            old(self).wf(),
            time >= old(self).last_time(),
            time < Time::MAX,
            channel.outbox != channel.inbox,
            !old(self).bufs_used().contains(channel.outbox as int),
            !old(self).bufs_used().contains(channel.inbox as int),
        ensures
            final(self).wf(),
            final(self).last_time() == time,
            final(self).bufs_used() == old(self).bufs_used().insert(
                channel.outbox as int,
            ).insert(channel.inbox as int),
            final(self).next_wake() matches Some(t) ==> (t >= time || (
            old(self).next_wake() matches Some(t0) && t >= t0)),
    ;

    /// The primary transition function: the machine observes `time`,
    /// may read from any owned inbox, transition internally, and send
    /// on any owned outbox.  A fault is fatal to the simulation run.
    fn poll(&mut self, time: Time, net: &mut Network) -> (r: Result<(), Fault>)
        requires
            old(self).wf(),
            time >= old(self).last_time(),
            forall|b: int| old(self).bufs_used().contains(b) ==> 0 <= b < old(net)@.len(),
        ensures
            r is Err <==> old(self).poll_fault(time, old(net)@) is Some,
            r matches Err(f) ==> Some(f) == old(self).poll_fault(time, old(net)@),
            final(self).wf(),
            final(self).last_time() == time,
            final(self).bufs_used() == old(self).bufs_used(),
            final(net)@.len() == old(net)@.len(),
            forall|b: int|
                0 <= b < final(net)@.len() && !old(self).bufs_used().contains(b)
                    ==> final(net)@[b] == old(net)@[b],
            final(self).next_wake() matches Some(t) ==> (t >= time || (
            old(self).next_wake() matches Some(t0) && t >= t0)),
    ;

    /// Reports the next time this machine wants to be polled absent any
    /// external stimulus; mail arrival triggers an extra poll
    /// regardless of this value.
    fn poll_at(&self) -> (r: Option<Time>)
        requires
            self.wf(),
        ensures
            r == self.next_wake(),
    ;
}

} // verus!
