//! The engine: global time, machine registry, connection registry and
//! event queue.
//!
//! The engine is the only component that mutates simulation state: it
//! pops the next pending event, polls that machine, moves every
//! buffered byte from each side's outbox into the peer's inbox, and
//! re-enqueues whoever must react.  Events execute in strictly
//! increasing (time, identity) order, so repeated runs with identical
//! inputs produce identical traces, and no machine ever observes time
//! moving backward.

use vstd::prelude::*;

use crate::channel::{Channel, Network};
use crate::machine::Machine;
use crate::{Fault, MachineId, Time};

verus! {

/// A pending poll request: this machine asked to be polled at this
/// time, or has undelivered mail and must be polled now.
#[derive(Clone, Copy, Debug, PartialEq, Eq, Structural)]
pub struct Event {
    /// When the machine must be polled.
    pub time: Time,
    /// Which machine must be polled.
    pub id: MachineId,
}

/// The strict ordering of the event queue: by time, ties broken by
/// machine identity ascending, for determinism.
pub open spec fn ev_lt(a: Event, b: Event) -> bool {
    a.time < b.time || (a.time == b.time && a.id < b.id)
}

/// Strictly sorted: no duplicates, earliest first.
pub open spec fn sorted_queue(q: Seq<Event>) -> bool {
    forall|i: int, j: int| 0 <= i < j < q.len() ==> ev_lt(#[trigger] q[i], #[trigger] q[j])
}

/// Inserts `ev` into the sorted queue, unless it is already pending:
/// the queue is a set, deduplicated by engine logic.
fn queue_insert(queue: &mut Vec<Event>, ev: Event)
    requires
        sorted_queue(old(queue)@),
    ensures
        sorted_queue(final(queue)@),
        forall|e: Event|
            final(queue)@.contains(e) <==> (old(queue)@.contains(e) || e == ev),
{
    let mut idx: usize = 0;
    while idx < queue.len() && (queue[idx].time < ev.time || (queue[idx].time == ev.time
        && queue[idx].id < ev.id))
        invariant
            idx <= queue@.len(),
            sorted_queue(queue@),
            queue@ == old(queue)@,
            forall|i: int| 0 <= i < idx ==> ev_lt(#[trigger] queue@[i], ev),
        decreases queue@.len() - idx,
    {
        idx = idx + 1;
    }
    if idx < queue.len() {
        let there = queue[idx];
        if there.time == ev.time && there.id == ev.id {
            proof {
                assert(queue@.contains(ev)) by {
                    assert(queue@[idx as int] == ev);
                }
                assert forall|e: Event|
                    queue@.contains(e) <==> (old(queue)@.contains(e) || e == ev) by {}
            }
            return ;
        }
    }
    let ghost pre = queue@;
    queue.insert(idx, ev);
    proof {
        assert(queue@ == pre.insert(idx as int, ev));
        assert(queue@.len() == pre.len() + 1);
        assert forall|i: int| 0 <= i < queue@.len() implies #[trigger] queue@[i] == (if i
            < idx as int {
            pre[i]
        } else if i == idx as int {
            ev
        } else {
            pre[i - 1]
        }) by {}
        // everything at or past the insertion point is greater than `ev`
        assert forall|i: int| idx as int <= i < pre.len() implies ev_lt(ev, #[trigger] pre[i]) by {
            assert(!ev_lt(pre[idx as int], ev));
            assert(pre[idx as int] != ev);
            assert(ev_lt(ev, pre[idx as int]));
            if i > idx as int {
                assert(ev_lt(pre[idx as int], pre[i]));
            }
        }
        assert(sorted_queue(queue@));
        assert forall|e: Event| queue@.contains(e) implies (pre.contains(e) || e == ev) by {
            let i = choose|i: int| 0 <= i < queue@.len() && queue@[i] == e;
            if i < idx as int {
                assert(pre[i] == e);
            } else if i > idx as int {
                assert(pre[i - 1] == e);
            } else {
                assert(e == ev);
            }
        }
        assert forall|e: Event| pre.contains(e) implies queue@.contains(e) by {
            let i = choose|i: int| 0 <= i < pre.len() && pre[i] == e;
            if i < idx as int {
                assert(queue@[i] == e);
            } else {
                assert(queue@[i + 1] == e);
            }
        }
        assert(queue@[idx as int] == ev);
        assert(queue@.contains(ev));
        assert(pre == old(queue)@);
    }
}

/// Removes and returns the earliest pending event.
fn queue_pop(queue: &mut Vec<Event>) -> (r: Event)
    requires
        sorted_queue(old(queue)@),
        old(queue)@.len() > 0,
    ensures
        r == old(queue)@[0],
        final(queue)@ == old(queue)@.drop_first(),
        sorted_queue(final(queue)@),
        forall|e: Event| final(queue)@.contains(e) ==> old(queue)@.contains(e) && ev_lt(r, e),
        forall|e: Event| old(queue)@.contains(e) ==> e == r || final(queue)@.contains(e),
{
    let r = queue.remove(0);
    proof {
        let pre = old(queue)@;
        assert(queue@ =~= pre.drop_first());
        assert forall|e: Event| queue@.contains(e) implies pre.contains(e) && ev_lt(r, e) by {
            let i = choose|i: int| 0 <= i < queue@.len() && queue@[i] == e;
            assert(pre[i + 1] == e);
            assert(ev_lt(pre[0], pre[i + 1]));
        }
        assert forall|e: Event| pre.contains(e) implies e == r || queue@.contains(e) by {
            let i = choose|i: int| 0 <= i < pre.len() && pre[i] == e;
            if i > 0 {
                assert(queue@[i - 1] == e);
            }
        }
    }
    r
}

/// A wake-up request reported right after a machine was connected lies
/// at or after the clock: it is either newly scheduled, at or past the
/// connection time, or it was already pending in the queue, which
/// never holds a past time.
proof fn lemma_wake_at_or_after_clock<M: Machine>(
    m0: M,
    m1: M,
    q: Seq<Event>,
    clock: Time,
    id: MachineId,
    t: Time,
)
    requires
        m1.next_wake() == Some(t),
        t >= clock || (m0.next_wake() matches Some(t0) && t >= t0),
        m0.next_wake() matches Some(t0) ==> q.contains(Event { time: t0, id }),
        forall|i: int| 0 <= i < q.len() ==> (#[trigger] q[i]).time >= clock,
    ensures
        t >= clock,
{
    if t < clock {
        match m0.next_wake() {
            Some(t0) => {
                let e = Event { time: t0, id };
                let i = choose|i: int| 0 <= i < q.len() && q[i] == e;
                assert(q[i].time >= clock);
            }
            None => {}
        }
    }
}

/// A wake-up request reported right after a machine was polled as the
/// earliest pending event lies at or after that event's time: it is
/// either newly scheduled, or it was already pending — and nothing in
/// the queue lies before its head.
proof fn lemma_polled_wake_bound<M: Machine>(m0: M, m1: M, pre: Seq<Event>, ev: Event, t: Time)
    requires
        sorted_queue(pre),
        pre.len() > 0,
        pre[0] == ev,
        m1.next_wake() == Some(t),
        t >= ev.time || (m0.next_wake() matches Some(t0) && t >= t0),
        m0.next_wake() matches Some(t0) ==> pre.contains(Event { time: t0, id: ev.id }),
    ensures
        t >= ev.time,
{
    if t < ev.time {
        match m0.next_wake() {
            Some(t0) => {
                let e = Event { time: t0, id: ev.id };
                let i = choose|i: int| 0 <= i < pre.len() && pre[i] == e;
                if i > 0 {
                    assert(ev_lt(pre[0], pre[i]));
                }
            }
            None => {}
        }
    }
}

/// Which events are pending after a step that popped `ev`: everything
/// else that was pending, plus a same-time poll request for every peer
/// that received mail, plus the polled machine's own next wake-up
/// request.
pub open spec fn step_events(
    pre: Seq<Event>,
    ev: Event,
    delivered: Seq<MachineId>,
    next: Option<Time>,
    e: Event,
) -> bool {
    ||| (pre.contains(e) && e != ev)
    ||| (delivered.contains(e.id) && e.time == ev.time)
    ||| (next matches Some(t) && e == Event { time: t, id: ev.id })
}

/// What one step did: which machine was polled at which time, which
/// peers received mail, and when the polled machine next wants to run.
pub struct StepReport {
    /// The time of the popped event: the new clock.
    pub time: Time,
    /// The machine that was polled.
    pub id: MachineId,
    /// The machines that received mail during the move step, each
    /// re-enqueued at this same instant.
    pub delivered: Vec<MachineId>,
    /// The polled machine's next wake-up request, re-enqueued.
    pub next: Option<Time>,
    /// The arena as the polled machine left it, before the move step.
    pub mid: Ghost<Seq<Seq<u8>>>,
}

/// The result of one step.
pub enum StepOutcome {
    /// The event queue was empty: nothing to do.
    Empty,
    /// One event was processed.
    Stepped(StepReport),
    /// The polled machine reported a fatal fault; the simulation must
    /// be abandoned.
    Faulted(Fault),
}

/// A read-only view of the simulation for diagnostics: the current
/// time, the pending events in queue order, and each machine's
/// reported wake-up request in registry order.
#[derive(Debug, PartialEq, Eq)]
pub struct Snapshot {
    /// The engine's current virtual time.
    pub time: Time,
    /// The pending events, earliest first.
    pub events: Vec<Event>,
    /// Each machine's wake-up request, indexed by identity.
    pub wakes: Vec<Option<Time>>,
}

/// A registered connection: the two participants and the four endpoint
/// buffers backing the two directed links.  Connection `k` owns arena
/// buffers `4k` through `4k + 3`.
#[derive(Clone, Copy, Debug)]
pub struct Connection {
    /// The first participant.
    pub a: MachineId,
    /// The second participant.
    pub b: MachineId,
    /// `a`'s outbox: the `a` to `b` stream before the move step.
    pub a_out: usize,
    /// `a`'s inbox: where the `b` to `a` stream is delivered.
    pub a_in: usize,
    /// `b`'s outbox: the `b` to `a` stream before the move step.
    pub b_out: usize,
    /// `b`'s inbox: where the `a` to `b` stream is delivered.
    pub b_in: usize,
}

/// The simulation engine over machines of kind `M`.
pub struct Engine<M: Machine> {
    /// The current virtual time.
    pub clock: Time,
    /// The registered machines, addressed by identity.
    pub machines: Vec<M>,
    /// The registered connections.
    pub connections: Vec<Connection>,
    /// The arena of endpoint buffers.
    pub net: Network,
    /// Pending poll requests, strictly sorted by (time, identity).
    pub queue: Vec<Event>,
}

impl<M: Machine> Engine<M> {
    /// Queue consistency: strictly sorted, never holding a past time,
    /// never naming an unregistered machine.
    pub open spec fn queue_wf(&self) -> bool {
        &&& sorted_queue(self.queue@)
        &&& forall|i: int| 0 <= i < self.queue@.len() ==> {
            let e = (#[trigger] self.queue@[i]);
            &&& e.time >= self.clock
            &&& e.id < self.machines@.len()
        }
    }

    /// Connection `k` links two distinct registered machines and owns
    /// arena buffers `4k` through `4k + 3`.
    pub open spec fn conn_wf(&self, k: int) -> bool {
        let c = self.connections@[k];
        &&& c.a < self.machines@.len()
        &&& c.b < self.machines@.len()
        &&& c.a != c.b
        &&& c.a_out == 4 * k
        &&& c.a_in == 4 * k + 1
        &&& c.b_out == 4 * k + 2
        &&& c.b_in == 4 * k + 3
    }

    /// Every connection is consistent and the arena holds exactly the
    /// buffers the connections own.
    pub open spec fn conns_wf(&self) -> bool {
        &&& self.net@.len() == 4 * self.connections@.len()
        &&& forall|k: int| 0 <= k < self.connections@.len() ==> self.conn_wf(k)
    }

    /// Every machine is consistent, has never observed a time past the
    /// clock, and owns only buffers that exist.
    pub open spec fn machines_wf(&self) -> bool {
        &&& forall|j: int| 0 <= j < self.machines@.len() ==> (#[trigger] self.machines@[j]).wf()
        &&& forall|j: int|
            0 <= j < self.machines@.len() ==> (#[trigger] self.machines@[j]).last_time()
                <= self.clock
        &&& forall|j: int, b: int|
            0 <= j < self.machines@.len() && (#[trigger] self.machines@[j].bufs_used().contains(
                b,
            )) ==> 0 <= b < self.net@.len()
    }

    /// Every wake-up request a machine currently reports is pending in
    /// the queue: nothing a machine asked for is ever lost.
    pub open spec fn wakes_queued(&self) -> bool {
        forall|j: int|
            0 <= j < self.machines@.len() ==> ((#[trigger] self.machines@[j]).next_wake() matches
            Some(t) ==> self.queue@.contains(Event { time: t, id: j as MachineId }))
    }

    /// The engine's internal invariant.
    pub open spec fn wf(&self) -> bool {
        &&& self.queue_wf()
        &&& self.conns_wf()
        &&& self.machines_wf()
        &&& self.wakes_queued()
    }

    /// A fresh engine: no machines, no connections, clock at zero.
    pub fn new() -> (e: Engine<M>)
        ensures
            e.wf(),
            e.clock == 0,
            e.machines@.len() == 0,
            e.connections@.len() == 0,
            e.net@.len() == 0,
            e.queue@.len() == 0,
    {
        Engine {
            clock: 0,
            machines: Vec::new(),
            connections: Vec::new(),
            net: Network::new(),
            queue: Vec::new(),
        }
    }

    /// Constructs a machine, registers it, and returns its identity.
    /// No side effects on other machines; a fresh machine reports no
    /// wake-up request, so there is nothing to enqueue for it yet.
    pub fn add_machine(&mut self) -> (id: MachineId)
        requires
            old(self).wf(),
        ensures
            final(self).wf(),
            id == old(self).machines@.len(),
            final(self).machines@.len() == old(self).machines@.len() + 1,
            forall|j: int|
                0 <= j < old(self).machines@.len() ==> final(self).machines@[j] == old(
                    self,
                ).machines@[j],
            final(self).machines@[id as int].last_time() == 0,
            final(self).machines@[id as int].next_wake() is None,
            final(self).clock == old(self).clock,
            final(self).connections@ == old(self).connections@,
            final(self).net@ == old(self).net@,
            final(self).queue@ == old(self).queue@,
    {
        let id = self.machines.len();
        let m = M::start(id);
        self.machines.push(m);
        proof {
            assert forall|j: int|
                0 <= j < old(self).machines@.len() implies #[trigger] self.machines@[j] == old(
                self,
            ).machines@[j] by {}
            assert(self.machines@[id as int] == m);
            assert forall|k: int| 0 <= k < self.connections@.len() implies self.conn_wf(k) by {
                assert(old(self).conn_wf(k));
            }
        }
        id
    }

    /// Creates a connection between two distinct registered machines
    /// at the current time: four fresh endpoint buffers are added to
    /// the arena, each side is handed its channel, and each side's new
    /// wake-up request is enqueued, so that a machine that now wants to
    /// send is not forgotten.
    #[verifier::rlimit(50)]
    pub fn connect(&mut self, a: MachineId, b: MachineId)
        requires
            old(self).wf(),
            a < old(self).machines@.len(),
            b < old(self).machines@.len(),
            a != b,
            old(self).clock < Time::MAX,
            old(self).net@.len() + 4 <= usize::MAX,
        ensures
            final(self).wf(),
            final(self).clock == old(self).clock,
            final(self).machines@.len() == old(self).machines@.len(),
            forall|j: int|
                0 <= j < old(self).machines@.len() && j != a && j != b ==> final(self).machines@[j] == old(self).machines@[j],
            final(self).machines@[a as int].wf(),
            final(self).machines@[b as int].wf(),
            final(self).machines@[a as int].last_time() == old(self).clock,
            final(self).machines@[b as int].last_time() == old(self).clock,
            final(self).connections@ == old(self).connections@.push(
                Connection {
                    a,
                    b,
                    a_out: old(self).net@.len() as usize,
                    a_in: (old(self).net@.len() + 1) as usize,
                    b_out: (old(self).net@.len() + 2) as usize,
                    b_in: (old(self).net@.len() + 3) as usize,
                },
            ),
            final(self).net@.len() == old(self).net@.len() + 4,
            forall|x: int|
                0 <= x < old(self).net@.len() ==> final(self).net@[x] == old(self).net@[x],
            forall|x: int|
                old(self).net@.len() <= x < final(self).net@.len() ==> final(self).net@[x]
                    == Seq::<u8>::empty(),
            forall|e: Event| old(self).queue@.contains(e) ==> final(self).queue@.contains(e),
            forall|e: Event|
                final(self).queue@.contains(e) ==> old(self).queue@.contains(e) || (e.id == a
                    && Some(e.time) == final(self).machines@[a as int].next_wake()) || (e.id == b
                    && Some(e.time) == final(self).machines@[b as int].next_wake()),
    {
        let base = self.net.len();
        let i0 = self.net.add_buf();
        let i1 = self.net.add_buf();
        let i2 = self.net.add_buf();
        let i3 = self.net.add_buf();
        let ca = Channel { self_id: a, peer_id: b, outbox: i0, inbox: i1 };
        let cb = Channel { self_id: b, peer_id: a, outbox: i2, inbox: i3 };
        let t = self.clock;
        proof {
            assert(!old(self).machines@[a as int].bufs_used().contains(i0 as int));
            assert(!old(self).machines@[a as int].bufs_used().contains(i1 as int));
            assert(!old(self).machines@[b as int].bufs_used().contains(i2 as int));
            assert(!old(self).machines@[b as int].bufs_used().contains(i3 as int));
        }
        self.machines[a].add_connection(ca, t);
        proof {
            assert(self.machines@[b as int] == old(self).machines@[b as int]);
        }
        self.machines[b].add_connection(cb, t);
        let ghost ma = self.machines@[a as int];
        let ghost mb = self.machines@[b as int];
        self.connections.push(
            Connection { a, b, a_out: i0, a_in: i1, b_out: i2, b_in: i3 },
        );
        // refresh the event queue with each side's wake-up request: a
        // newly connected machine may now have an earlier wake time
        let ghost q0 = self.queue@;
        let wa = self.machines[a].poll_at();
        match wa {
            Some(ta) => {
                proof {
                    lemma_wake_at_or_after_clock::<M>(
                        old(self).machines@[a as int],
                        ma,
                        old(self).queue@,
                        self.clock,
                        a,
                        ta,
                    );
                }
                queue_insert(&mut self.queue, Event { time: ta, id: a });
            }
            None => {}
        }
        let wb = self.machines[b].poll_at();
        match wb {
            Some(tb) => {
                proof {
                    lemma_wake_at_or_after_clock::<M>(
                        old(self).machines@[b as int],
                        mb,
                        old(self).queue@,
                        self.clock,
                        b,
                        tb,
                    );
                }
                queue_insert(&mut self.queue, Event { time: tb, id: b });
            }
            None => {}
        }
        proof {
            let n_old = old(self).net@.len() as int;
            assert forall|j: int|
                0 <= j < self.machines@.len() && j != a && j != b implies #[trigger] self
                .machines@[j] == old(self).machines@[j] by {}
            // queue consistency
            assert forall|e: Event|
                self.queue@.contains(e) implies old(self).queue@.contains(e) || (e.id == a
                    && Some(e.time) == ma.next_wake()) || (e.id == b && Some(e.time)
                    == mb.next_wake()) by {}
            assert forall|i: int| 0 <= i < self.queue@.len() implies (#[trigger] self.queue@[i]).time
                >= self.clock && self.queue@[i].id < self.machines@.len() by {
                let e = self.queue@[i];
                assert(self.queue@.contains(e));
                if old(self).queue@.contains(e) {
                    let k = choose|k: int|
                        0 <= k < old(self).queue@.len() && old(self).queue@[k] == e;
                }
            }
            // connection table consistency
            assert forall|k: int| 0 <= k < self.connections@.len() implies self.conn_wf(k) by {
                if k < old(self).connections@.len() {
                    assert(old(self).conn_wf(k));
                    assert(self.connections@[k] == old(self).connections@[k]);
                } else {
                    assert(self.connections@[k] == Connection {
                        a,
                        b,
                        a_out: i0,
                        a_in: i1,
                        b_out: i2,
                        b_in: i3,
                    });
                }
            }
            assert(self.net@.len() == 4 * self.connections@.len());
            // machine consistency: the two connected machines observed
            // the clock, everyone's buffers still exist
            assert forall|j: int, bx: int|
                0 <= j < self.machines@.len() && (#[trigger] self.machines@[j].bufs_used()
                    .contains(bx)) implies 0 <= bx < self.net@.len() by {
                if j != a && j != b {
                    assert(self.machines@[j] == old(self).machines@[j]);
                }
            }
            // every pending wake-up request is still queued
            assert forall|j: int|
                0 <= j < self.machines@.len() implies ((#[trigger] self.machines@[j]).next_wake()
                    matches Some(t2) ==> self.queue@.contains(
                    Event { time: t2, id: j as MachineId },
                )) by {
                if j != a && j != b {
                    assert(self.machines@[j] == old(self).machines@[j]);
                }
            }
        }
    }

    /// Processes the earliest pending event: pops it, advances the
    /// clock to its time, polls its machine, then moves every buffered
    /// byte from each side's outbox into the peer's inbox — mail
    /// delivery adds no delay of its own, so every peer that received
    /// bytes is re-enqueued at this same instant — and finally
    /// re-enqueues the polled machine at its self-reported next wake
    /// time.  Reports a no-op if the queue is empty, and a fatal fault
    /// if the polled machine fails.
    #[verifier::loop_isolation(false)]
    #[verifier::rlimit(100)]
    pub fn step(&mut self) -> (r: StepOutcome)
        requires
            old(self).wf(),
        ensures
            final(self).wf(),
            r is Empty <==> old(self).queue@.len() == 0,
            r is Empty ==> *final(self) == *old(self),
            // the outcome is bound to the polled machine's own result:
            // a fatal fault can be neither invented nor suppressed
            r is Stepped <==> (old(self).queue@.len() > 0 && old(self).machines@[old(
                self,
            ).queue@[0].id as int].poll_fault(old(self).queue@[0].time, old(self).net@) is None),
            r is Faulted <==> (old(self).queue@.len() > 0 && old(self).machines@[old(
                self,
            ).queue@[0].id as int].poll_fault(old(self).queue@[0].time, old(self).net@) is Some),
            r matches StepOutcome::Faulted(f) ==> Some(f) == old(self).machines@[old(
                self,
            ).queue@[0].id as int].poll_fault(old(self).queue@[0].time, old(self).net@),
            final(self).machines@.len() == old(self).machines@.len(),
            final(self).connections@ == old(self).connections@,
            final(self).net@.len() == old(self).net@.len(),
            final(self).clock >= old(self).clock,
            !(r is Empty) ==> ({
                let ev = old(self).queue@[0];
                &&& final(self).clock == ev.time
                &&& final(self).machines@[ev.id as int].wf()
                &&& final(self).machines@[ev.id as int].last_time() == ev.time
                &&& forall|j: int|
                    0 <= j < old(self).machines@.len() && j != ev.id ==> final(self).machines@[j] == old(self).machines@[j]
            }),
            r matches StepOutcome::Stepped(rep) ==> ({
                let ev = old(self).queue@[0];
                &&& rep.time == ev.time
                &&& rep.id == ev.id
                &&& rep.next == final(self).machines@[ev.id as int].next_wake()
                &&& forall|e: Event|
                    final(self).queue@.contains(e) <==> step_events(
                        old(self).queue@,
                        ev,
                        rep.delivered@,
                        rep.next,
                        e,
                    )
                &&& rep.mid@.len() == old(self).net@.len()
                &&& forall|bx: int|
                    0 <= bx < rep.mid@.len() && !old(self).machines@[ev.id as int].bufs_used()
                        .contains(bx) ==> rep.mid@[bx] == old(self).net@[bx]
                &&& forall|k: int|
                    0 <= k < old(self).connections@.len() ==> ({
                        let c = (#[trigger] old(self).connections@[k]);
                        &&& final(self).net@[c.a_out as int] == Seq::<u8>::empty()
                        &&& final(self).net@[c.b_out as int] == Seq::<u8>::empty()
                        &&& final(self).net@[c.b_in as int] == rep.mid@[c.b_in as int]
                            + rep.mid@[c.a_out as int]
                        &&& final(self).net@[c.a_in as int] == rep.mid@[c.a_in as int]
                            + rep.mid@[c.b_out as int]
                    })
                &&& forall|p: MachineId|
                    rep.delivered@.contains(p) <==> exists|k: int|
                        0 <= k < old(self).connections@.len() && ({
                            let c = (#[trigger] old(self).connections@[k]);
                            (c.b == p && rep.mid@[c.a_out as int].len() > 0) || (c.a == p
                                && rep.mid@[c.b_out as int].len() > 0)
                        })
            }),
            r is Faulted ==> ({
                let ev = old(self).queue@[0];
                forall|e: Event|
                    final(self).queue@.contains(e) <==> step_events(
                        old(self).queue@,
                        ev,
                        Seq::<MachineId>::empty(),
                        final(self).machines@[ev.id as int].next_wake(),
                        e,
                    )
            }),
    {
        if self.queue.len() == 0 {
            return StepOutcome::Empty;
        }
        // pin the registry size, so identity casts below stay faithful
        let _machine_count = self.machines.len();
        let ev = queue_pop(&mut self.queue);
        let ghost qpop = self.queue@;
        // the clock never moves backward: the queue held no past time
        self.clock = ev.time;
        proof {
            assert(old(self).queue@.contains(ev)) by {
                assert(old(self).queue@[0] == ev);
            }
        }
        let pr = self.machines[ev.id].poll(ev.time, &mut self.net);
        let ghost mid = self.net@;
        let ghost mpolled = self.machines@[ev.id as int];

        match pr {
            Err(f) => {
                // fatal: deliver nothing, but keep the machine's own
                // wake-up request announced so the queue stays honest
                let next = self.machines[ev.id].poll_at();
                match next {
                    Some(t) => {
                        proof {
                            lemma_polled_wake_bound::<M>(
                                old(self).machines@[ev.id as int],
                                mpolled,
                                old(self).queue@,
                                ev,
                                t,
                            );
                        }
                        queue_insert(&mut self.queue, Event { time: t, id: ev.id });
                    }
                    None => {}
                }
                proof {
                    assert forall|e: Event|
                        self.queue@.contains(e) implies (qpop.contains(e) || (e.time == ev.time
                            && e.id < old(self).machines@.len()) || (
                        mpolled.next_wake() matches Some(t2) && e == Event {
                            time: t2,
                            id: ev.id,
                        })) by {}
                    self.lemma_step_wf_restored(*old(self), ev, mpolled, qpop);
                    assert forall|e: Event|
                        self.queue@.contains(e) <==> step_events(
                            old(self).queue@,
                            ev,
                            Seq::<MachineId>::empty(),
                            mpolled.next_wake(),
                            e,
                        ) by {
                        assert(!Seq::<MachineId>::empty().contains(e.id));
                        if step_events(
                            old(self).queue@,
                            ev,
                            Seq::<MachineId>::empty(),
                            mpolled.next_wake(),
                            e,
                        ) && !self.queue@.contains(e) {
                            assert(old(self).queue@.contains(e) && e != ev);
                            assert(qpop.contains(e));
                        }
                    }
                }
                return StepOutcome::Faulted(f);
            }
            Ok(()) => {}
        }

        // the move step: for every registered connection, carry all
        // buffered bytes from each side's outbox to the peer's inbox
        let mut delivered: Vec<MachineId> = Vec::new();
        let n_conns = self.connections.len();
        let mut k: usize = 0;
        while k < n_conns
            invariant
                k <= n_conns,
                self.clock == ev.time,
                self.machines@ == old(self).machines@.update(ev.id as int, mpolled),
                self.connections@ == old(self).connections@,
                self.net@.len() == mid.len(),
                mid.len() == old(self).net@.len(),
                sorted_queue(self.queue@),
                forall|e: Event|
                    self.queue@.contains(e) <==> (qpop.contains(e) || (
                    delivered@.contains(e.id) && e.time == ev.time)),
                forall|kk: int|
                    0 <= kk < k ==> ({
                        let c = (#[trigger] old(self).connections@[kk]);
                        &&& self.net@[c.a_out as int] == Seq::<u8>::empty()
                        &&& self.net@[c.b_out as int] == Seq::<u8>::empty()
                        &&& self.net@[c.b_in as int] == mid[c.b_in as int] + mid[c.a_out as int]
                        &&& self.net@[c.a_in as int] == mid[c.a_in as int] + mid[c.b_out as int]
                    }),
                forall|kk: int|
                    k <= kk < n_conns ==> ({
                        let c = (#[trigger] old(self).connections@[kk]);
                        &&& self.net@[c.a_out as int] == mid[c.a_out as int]
                        &&& self.net@[c.b_out as int] == mid[c.b_out as int]
                        &&& self.net@[c.b_in as int] == mid[c.b_in as int]
                        &&& self.net@[c.a_in as int] == mid[c.a_in as int]
                    }),
                forall|p: MachineId|
                    delivered@.contains(p) <==> exists|kk: int|
                        0 <= kk < k && ({
                            let c = (#[trigger] old(self).connections@[kk]);
                            (c.b == p && mid[c.a_out as int].len() > 0) || (c.a == p && mid[c.b_out
                                as int].len() > 0)
                        }),
            decreases n_conns - k,
        {
            let c = self.connections[k];
            let ghost d0 = delivered@;
            let ghost qs0 = self.queue@;
            let ghost sent_ab = mid[c.a_out as int].len() > 0;
            let ghost sent_ba = mid[c.b_out as int].len() > 0;
            let ghost eb = Event { time: ev.time, id: c.b };
            let ghost ea = Event { time: ev.time, id: c.a };
            proof {
                assert(old(self).conn_wf(k as int));
                assert(old(self).connections@[k as int] == c);
            }
            let moved = self.net.take_buf(c.a_out);
            if moved.len() > 0 {
                self.net.append_buf(c.b_in, moved);
                delivered.push(c.b);
                queue_insert(&mut self.queue, Event { time: ev.time, id: c.b });
            }
            let moved2 = self.net.take_buf(c.b_out);
            if moved2.len() > 0 {
                self.net.append_buf(c.a_in, moved2);
                delivered.push(c.a);
                queue_insert(&mut self.queue, Event { time: ev.time, id: c.a });
            }
            proof {
                // what was added this round, in terms of the two streams
                assert(delivered@ == (if sent_ab && sent_ba {
                    d0.push(c.b).push(c.a)
                } else if sent_ab {
                    d0.push(c.b)
                } else if sent_ba {
                    d0.push(c.a)
                } else {
                    d0
                }));
                assert forall|p: MachineId|
                    delivered@.contains(p) implies (d0.contains(p) || (sent_ab && p == c.b) || (
                sent_ba && p == c.a)) by {
                    let i = choose|i: int| 0 <= i < delivered@.len() && delivered@[i] == p;
                    if i < d0.len() {
                        assert(d0[i] == p);
                    }
                }
                assert forall|p: MachineId| d0.contains(p) implies delivered@.contains(p) by {
                    let i = choose|i: int| 0 <= i < d0.len() && d0[i] == p;
                    assert(delivered@[i] == p);
                }
                if sent_ab {
                    assert(delivered@.contains(c.b)) by {
                        if sent_ba {
                            assert(delivered@[delivered@.len() - 2] == c.b);
                        } else {
                            assert(delivered@[delivered@.len() - 1] == c.b);
                        }
                    }
                }
                if sent_ba {
                    assert(delivered@.contains(c.a)) by {
                        assert(delivered@[delivered@.len() - 1] == c.a);
                    }
                }
                assert forall|e: Event|
                    self.queue@.contains(e) implies (qs0.contains(e) || (sent_ab && e == eb) || (
                sent_ba && e == ea)) by {}
                assert forall|e: Event| qs0.contains(e) implies self.queue@.contains(e) by {}
                assert(sent_ab ==> self.queue@.contains(eb));
                assert(sent_ba ==> self.queue@.contains(ea));
                // the delivered list answers for every connection up to
                // and including this one
                assert forall|p: MachineId|
                    delivered@.contains(p) implies exists|kk: int|
                        0 <= kk < k as int + 1 && ({
                            let c2 = (#[trigger] old(self).connections@[kk]);
                            (c2.b == p && mid[c2.a_out as int].len() > 0) || (c2.a == p && mid[
                            c2.b_out as int].len() > 0)
                        }) by {
                    if d0.contains(p) {
                        let kk = choose|kk: int|
                            0 <= kk < k as int && ({
                                let c2 = (#[trigger] old(self).connections@[kk]);
                                (c2.b == p && mid[c2.a_out as int].len() > 0) || (c2.a == p
                                    && mid[c2.b_out as int].len() > 0)
                            });
                        assert(0 <= kk < k as int + 1);
                    } else {
                        assert((sent_ab && p == c.b) || (sent_ba && p == c.a));
                        assert(old(self).connections@[k as int] == c);
                    }
                }
                assert forall|p: MachineId|
                    (exists|kk: int|
                        0 <= kk < k as int + 1 && ({
                            let c2 = (#[trigger] old(self).connections@[kk]);
                            (c2.b == p && mid[c2.a_out as int].len() > 0) || (c2.a == p && mid[
                            c2.b_out as int].len() > 0)
                        })) implies delivered@.contains(p) by {
                    let kk = choose|kk: int|
                        0 <= kk < k as int + 1 && ({
                            let c2 = (#[trigger] old(self).connections@[kk]);
                            (c2.b == p && mid[c2.a_out as int].len() > 0) || (c2.a == p && mid[
                            c2.b_out as int].len() > 0)
                        });
                    if kk < k as int {
                        assert(d0.contains(p));
                    }
                }
                // the queue answers for the delivered list
                assert forall|e: Event|
                    self.queue@.contains(e) implies (qpop.contains(e) || (delivered@.contains(
                        e.id,
                    ) && e.time == ev.time)) by {
                    if qs0.contains(e) && !qpop.contains(e) {
                        assert(d0.contains(e.id) && e.time == ev.time);
                    }
                }
                assert forall|e: Event|
                    (qpop.contains(e) || (delivered@.contains(e.id) && e.time == ev.time))
                        implies self.queue@.contains(e) by {
                    if !qpop.contains(e) && delivered@.contains(e.id) && e.time == ev.time {
                        if d0.contains(e.id) {
                            assert(qs0.contains(e));
                        } else if sent_ab && e.id == c.b {
                            assert(e == eb);
                        } else {
                            assert(sent_ba && e.id == c.a);
                            assert(e == ea);
                        }
                    }
                }
                // the net effects, as before
                assert forall|kk: int|
                    0 <= kk <= k as int implies ({
                        let c2 = (#[trigger] old(self).connections@[kk]);
                        &&& self.net@[c2.a_out as int] == Seq::<u8>::empty()
                        &&& self.net@[c2.b_out as int] == Seq::<u8>::empty()
                        &&& self.net@[c2.b_in as int] == mid[c2.b_in as int] + mid[c2.a_out
                            as int]
                        &&& self.net@[c2.a_in as int] == mid[c2.a_in as int] + mid[c2.b_out
                            as int]
                    }) by {
                    assert(old(self).conn_wf(kk));
                    if kk == k as int {
                        if !sent_ab {
                            assert(mid[c.b_in as int] + mid[c.a_out as int] =~= mid[c.b_in
                                as int]);
                        }
                        if !sent_ba {
                            assert(mid[c.a_in as int] + mid[c.b_out as int] =~= mid[c.a_in
                                as int]);
                        }
                    }
                }
                assert forall|kk: int|
                    k as int + 1 <= kk < n_conns implies ({
                        let c2 = (#[trigger] old(self).connections@[kk]);
                        &&& self.net@[c2.a_out as int] == mid[c2.a_out as int]
                        &&& self.net@[c2.b_out as int] == mid[c2.b_out as int]
                        &&& self.net@[c2.b_in as int] == mid[c2.b_in as int]
                        &&& self.net@[c2.a_in as int] == mid[c2.a_in as int]
                    }) by {
                    assert(old(self).conn_wf(kk));
                }
            }
            k = k + 1;
        }

        // re-enqueue the polled machine at its next wake time; a
        // machine that reports none is dormant until mail or a new
        // connection wakes it
        let ghost q1 = self.queue@;
        let next = self.machines[ev.id].poll_at();
        match next {
            Some(t) => {
                proof {
                    lemma_polled_wake_bound::<M>(
                        old(self).machines@[ev.id as int],
                        mpolled,
                        old(self).queue@,
                        ev,
                        t,
                    );
                }
                queue_insert(&mut self.queue, Event { time: t, id: ev.id });
            }
            None => {}
        }
        proof {
            let dl = delivered@;
            let nw = mpolled.next_wake();
            assert(self.machines@[ev.id as int] == mpolled);
            assert(next == nw);
            // the queue now holds what the move step left, plus the
            // polled machine's own wake-up request
            assert forall|e: Event|
                self.queue@.contains(e) <==> (q1.contains(e) || (nw matches Some(t2) && e
                    == Event { time: t2, id: ev.id })) by {}
            assert forall|e: Event|
                q1.contains(e) <==> (qpop.contains(e) || (dl.contains(e.id) && e.time
                    == ev.time)) by {}
            assert forall|e: Event|
                self.queue@.contains(e) implies (qpop.contains(e) || (e.time == ev.time && e.id
                    < old(self).machines@.len()) || (nw matches Some(t2) && e == Event {
                    time: t2,
                    id: ev.id,
                })) by {
                if q1.contains(e) && !qpop.contains(e) {
                    let kk = choose|kk: int|
                        0 <= kk < n_conns && ({
                            let c2 = (#[trigger] old(self).connections@[kk]);
                            (c2.b == e.id && mid[c2.a_out as int].len() > 0) || (c2.a == e.id
                                && mid[c2.b_out as int].len() > 0)
                        });
                    assert(old(self).conn_wf(kk));
                }
            }
            self.lemma_step_wf_restored(*old(self), ev, mpolled, qpop);
            assert forall|e: Event|
                self.queue@.contains(e) <==> step_events(old(self).queue@, ev, dl, nw, e) by {
                if self.queue@.contains(e) && q1.contains(e) && qpop.contains(e) {
                    assert(old(self).queue@.contains(e) && ev_lt(ev, e));
                    assert(e != ev);
                }
                if step_events(old(self).queue@, ev, dl, nw, e) {
                    if old(self).queue@.contains(e) && e != ev {
                        assert(qpop.contains(e));
                        assert(q1.contains(e));
                    }
                    if dl.contains(e.id) && e.time == ev.time {
                        assert(q1.contains(e));
                    }
                }
            }
        }
        StepOutcome::Stepped(
            StepReport { time: ev.time, id: ev.id, delivered, next, mid: Ghost(mid) },
        )
    }

    /// Everything the exits of one step must show to restore the
    /// engine invariant after a machine was polled and the queue was
    /// rebuilt.
    proof fn lemma_step_wf_restored(&self, pre: Engine<M>, ev: Event, mpolled: M, qpop: Seq<Event>)
        requires
            pre.wf(),
            pre.queue@.len() > 0,
            pre.machines@.len() <= usize::MAX,
            ev == pre.queue@[0],
            qpop == pre.queue@.drop_first(),
            self.clock == ev.time,
            self.machines@ == pre.machines@.update(ev.id as int, mpolled),
            ev.id < pre.machines@.len(),
            mpolled.wf(),
            mpolled.last_time() == ev.time,
            mpolled.bufs_used() == pre.machines@[ev.id as int].bufs_used(),
            self.connections@ == pre.connections@,
            self.net@.len() == pre.net@.len(),
            sorted_queue(self.queue@),
            forall|e: Event| qpop.contains(e) ==> self.queue@.contains(e),
            forall|e: Event|
                self.queue@.contains(e) ==> (qpop.contains(e) || (e.time == ev.time && e.id
                    < pre.machines@.len()) || (mpolled.next_wake() matches Some(t) && e == Event {
                    time: t,
                    id: ev.id,
                })),
            mpolled.next_wake() matches Some(t) ==> (t >= ev.time && self.queue@.contains(
                Event { time: t, id: ev.id },
            )),
        ensures
            self.wf(),
    {
        assert(ev.time >= pre.clock);
        // pending times never lie before the new clock: what survived
        // the pop came after the head, and what was inserted carries
        // the head's own time or a later wake
        assert forall|i: int|
            0 <= i < self.queue@.len() implies (#[trigger] self.queue@[i]).time >= self.clock
            && self.queue@[i].id < self.machines@.len() by {
            let e = self.queue@[i];
            assert(self.queue@.contains(e));
            if qpop.contains(e) {
                let x = choose|x: int| 0 <= x < qpop.len() && qpop[x] == e;
                assert(pre.queue@[x + 1] == e);
                assert(ev_lt(pre.queue@[0], pre.queue@[x + 1]));
            }
        }
        assert forall|k: int| 0 <= k < self.connections@.len() implies self.conn_wf(k) by {
            assert(pre.conn_wf(k));
        }
        assert forall|j: int|
            0 <= j < self.machines@.len() implies (#[trigger] self.machines@[j]).wf() && self
            .machines@[j].last_time() <= self.clock by {
            if j != ev.id {
                assert(self.machines@[j] == pre.machines@[j]);
            }
        }
        assert forall|j: int, bx: int|
            0 <= j < self.machines@.len() && (#[trigger] self.machines@[j].bufs_used().contains(
                bx,
            )) implies 0 <= bx < self.net@.len() by {
            if j != ev.id {
                assert(self.machines@[j] == pre.machines@[j]);
            } else {
                assert(pre.machines@[j].bufs_used().contains(bx));
            }
        }
        // nothing any machine asked for was lost: a survivor's request
        // was already pending and was not the popped event
        assert forall|j: int|
            0 <= j < self.machines@.len() implies ((#[trigger] self.machines@[j]).next_wake()
                matches Some(t) ==> self.queue@.contains(Event { time: t, id: j as MachineId }))
            by {
            if j != ev.id {
                assert(self.machines@[j] == pre.machines@[j]);
                match pre.machines@[j].next_wake() {
                    Some(t) => {
                        let e = Event { time: t, id: j as MachineId };
                        assert(pre.queue@.contains(e));
                        let x = choose|x: int| 0 <= x < pre.queue@.len() && pre.queue@[x] == e;
                        assert(e.id != ev.id);
                        assert(x != 0);
                        assert(qpop[x - 1] == e);
                        assert(qpop.contains(e));
                    }
                    None => {}
                }
            }
        }
    }

    /// A read-only view of the current time, the pending events, and
    /// each machine's reported wake-up request, for diagnostics.  No
    /// mutation: two snapshots taken without an intervening `step` or
    /// `connect` are identical.
    #[verifier::loop_isolation(false)]
    pub fn snapshot(&self) -> (s: Snapshot)
        requires
            self.wf(),
        ensures
            s.time == self.clock,
            s.events@ == self.queue@,
            s.wakes@ == self.machines@.map_values(|m: M| m.next_wake()),
    {
        let mut events: Vec<Event> = Vec::new();
        let mut i: usize = 0;
        while i < self.queue.len()
            invariant
                i <= self.queue@.len(),
                events@ == self.queue@.take(i as int),
            decreases self.queue@.len() - i,
        {
            events.push(self.queue[i]);
            proof {
                assert(events@ =~= self.queue@.take(i + 1));
            }
            i = i + 1;
        }
        proof {
            assert(self.queue@.take(self.queue@.len() as int) =~= self.queue@);
        }
        let mut wakes: Vec<Option<Time>> = Vec::new();
        let mut j: usize = 0;
        while j < self.machines.len()
            invariant
                j <= self.machines@.len(),
                wakes@ == self.machines@.take(j as int).map_values(|m: M| m.next_wake()),
            decreases self.machines@.len() - j,
        {
            let w = self.machines[j].poll_at();
            wakes.push(w);
            proof {
                assert(wakes@ =~= self.machines@.take(j + 1).map_values(
                    |m: M| m.next_wake(),
                ));
            }
            j = j + 1;
        }
        proof {
            assert(self.machines@.take(self.machines@.len() as int) =~= self.machines@);
        }
        Snapshot { time: self.clock, events, wakes }
    }

    /// The current virtual time.
    pub fn current_time(&self) -> (r: Time)
        ensures
            r == self.clock,
    {
        self.clock
    }

    /// The number of registered machines.
    pub fn num_machines(&self) -> (r: usize)
        ensures
            r == self.machines@.len(),
    {
        self.machines.len()
    }

    /// The number of registered connections.
    pub fn num_connections(&self) -> (r: usize)
        ensures
            r == self.connections@.len(),
    {
        self.connections.len()
    }

    /// A read-only view of one registered machine.
    pub fn machine(&self, i: MachineId) -> (r: &M)
        requires
            i < self.machines@.len(),
        ensures
            *r == self.machines@[i as int],
    {
        &self.machines[i]
    }

    /// The next event a wall-clock paced run must wait for: the time
    /// of the earliest pending event, unless it lies beyond `deadline`
    /// or the queue is empty.  Pacing itself — sleeping the wall-clock
    /// delta before calling `step` — belongs to the driver; the kernel
    /// never blocks.
    pub fn next_due(&self, deadline: Time) -> (r: Option<Time>)
        ensures
            r == (if self.queue@.len() > 0 && self.queue@[0].time <= deadline {
                Some(self.queue@[0].time)
            } else {
                Option::<Time>::None
            }),
    {
        if self.queue.len() > 0 && self.queue[0].time <= deadline {
            Some(self.queue[0].time)
        } else {
            None
        }
    }

    /// The time of the earliest pending event, if any.
    pub fn next_event_time(&self) -> (r: Option<Time>)
        ensures
            r == (if self.queue@.len() == 0 {
                Option::<Time>::None
            } else {
                Some(self.queue@[0].time)
            }),
    {
        if self.queue.len() == 0 {
            None
        } else {
            Some(self.queue[0].time)
        }
    }
}

/// Monotonic time: in a consistent engine every pending event lies at
/// or after every machine's last observed time, so whichever event is
/// processed next, no machine is ever polled with a time below the
/// last one it was handed.
pub proof fn lemma_time_monotonic<M: Machine>(e: &Engine<M>, i: int, j: int)
    requires
        e.wf(),
        0 <= i < e.queue@.len(),
        0 <= j < e.machines@.len(),
    ensures
        e.queue@[i].time >= e.machines@[j].last_time(),
{
    assert(e.queue@[i].time >= e.clock);
}

/// Delivery without extra delay: every peer that received bytes during
/// a step is pending again at that same step's time, before the engine
/// can proceed to any later timestamp.
pub proof fn lemma_delivery_same_time(
    pre: Seq<Event>,
    ev: Event,
    delivered: Seq<MachineId>,
    next: Option<Time>,
    p: MachineId,
)
    requires
        delivered.contains(p),
    ensures
        step_events(pre, ev, delivered, next, Event { time: ev.time, id: p }),
{
}

/// No-mail dormancy: a machine that was not polled, had no pending
/// event, and received no mail during a step still has no pending
/// event afterwards — it stays dormant until a message or a new
/// connection wakes it.
pub proof fn lemma_no_mail_dormancy(
    pre: Seq<Event>,
    ev: Event,
    delivered: Seq<MachineId>,
    next: Option<Time>,
    m: MachineId,
)
    requires
        forall|e: Event| pre.contains(e) ==> e.id != m,
        !delivered.contains(m),
        m != ev.id,
    ensures
        forall|e: Event| step_events(pre, ev, delivered, next, e) ==> e.id != m,
{
}

/// Idempotent snapshot: two snapshots that describe the same engine
/// state are identical in every observable part.
pub proof fn lemma_snapshot_idempotent<M: Machine>(e: &Engine<M>, s1: Snapshot, s2: Snapshot)
    requires
        s1.time == e.clock,
        s1.events@ == e.queue@,
        s1.wakes@ == e.machines@.map_values(|m: M| m.next_wake()),
        s2.time == e.clock,
        s2.events@ == e.queue@,
        s2.wakes@ == e.machines@.map_values(|m: M| m.next_wake()),
    ensures
        s1.time == s2.time,
        s1.events@ == s2.events@,
        s1.wakes@ == s2.wakes@,
{
}

} // verus!
