//! A link with fixed propagation delay.
//!
//! A [`Wire`] is a machine-like participant that sits between two
//! endpoints.  Every payload handed to it at time `T` is scheduled for
//! delivery to the opposite endpoint at exactly `T + delay`, and within
//! one direction payloads leave in the order they arrived: the internal
//! queue is only ever appended at the tail and drained from the head.

use vstd::prelude::*;

use crate::simulator::Node;
use crate::{mail_view, Fault, MachineId, Msg, PollResult, Time};

verus! {

/// A scheduled delivery: (delivery time, destination, payload).
pub struct Wire {
    /// One endpoint of the link.
    pub end1: MachineId,
    /// The other endpoint of the link.
    pub end2: MachineId,
    /// The fixed propagation delay imposed on every payload.
    pub delay: Time,
    /// Pending deliveries, ordered by delivery time (FIFO per poll).
    pub outgoing: Vec<(Time, MachineId, Msg)>,
    /// The largest time this wire has been polled at.
    pub last: Ghost<Time>,
}

/// Delivery times never decrease along the queue.
pub open spec fn entries_sorted(q: Seq<(Time, MachineId, Seq<u8>)>) -> bool {
    forall|i: int, j: int| 0 <= i <= j < q.len() ==> (#[trigger] q[i]).0 <= (#[trigger] q[j]).0
}

/// The number of leading entries of `q` whose delivery time has arrived.
pub open spec fn ripe_prefix_len(q: Seq<(Time, MachineId, Seq<u8>)>, time: Time) -> int
    decreases q.len(),
{
    if q.len() == 0 {
        0
    } else if q[0].0 <= time {
        1 + ripe_prefix_len(q.drop_first(), time)
    } else {
        0
    }
}

/// The (destination, payload) pairs a drain at `time` hands out of `q`.
pub open spec fn drained(q: Seq<(Time, MachineId, Seq<u8>)>, time: Time) -> Seq<
    (MachineId, Seq<u8>),
> {
    q.take(ripe_prefix_len(q, time)).map_values(|e: (Time, MachineId, Seq<u8>)| (e.1, e.2))
}

/// In a queue sorted by delivery time, an entry leaves a drain at `time`
/// when its scheduled time has arrived, and not before.
pub proof fn lemma_ripe_iff_due(q: Seq<(Time, MachineId, Seq<u8>)>, time: Time)
    requires
        entries_sorted(q),
    ensures
        0 <= ripe_prefix_len(q, time) <= q.len(),
        forall|k: int| 0 <= k < q.len() ==> (k < ripe_prefix_len(q, time) <==> (#[trigger] q[k]).0 <= time),
    decreases q.len(),
{
    if q.len() > 0 {
        assert(forall|i: int, j: int|
            0 <= i <= j < q.drop_first().len() ==> (#[trigger] q.drop_first()[i]).0 <= (
            #[trigger] q.drop_first()[j]).0) by {
            assert(forall|i: int| 0 <= i < q.drop_first().len()
                ==> (#[trigger] q.drop_first()[i]) == q[i + 1]);
        }
        lemma_ripe_iff_due(q.drop_first(), time);
        if q[0].0 <= time {
            assert(forall|k: int| 1 <= k < q.len() ==> (#[trigger] q[k]) == q.drop_first()[k - 1]);
        } else {
            assert(forall|k: int| 0 <= k < q.len() ==> (#[trigger] q[k]).0 >= q[0].0);
        }
    }
}

/// The delay law: a payload handed to the wire at time `time` is
/// scheduled for the opposite endpoint at exactly `time + delay`, and
/// the schedule keeps the order the mail arrived in.
pub proof fn lemma_wire_delay(w: Wire, time: Time, mail: Seq<(MachineId, Seq<u8>)>, k: int)
    requires
        0 <= k < mail.len(),
        time + w.delay <= u64::MAX,
    ensures
        w.delayed(time, mail).len() == mail.len(),
        w.delayed(time, mail)[k].0 == time + w.delay,
        w.delayed(time, mail)[k].1 == w.opposite(mail[k].0),
        w.delayed(time, mail)[k].2 == mail[k].1,
{
}

/// The FIFO law: a drain hands payloads out in queue order — when one
/// entry precedes another and the later one is due, both leave, in
/// that same order, even when their delivery times coincide.
pub proof fn lemma_wire_fifo(q: Seq<(Time, MachineId, Seq<u8>)>, time: Time, i: int, j: int)
    requires
        entries_sorted(q),
        0 <= i < j < q.len(),
        q[j].0 <= time,
    ensures
        j < drained(q, time).len(),
        drained(q, time)[i] == (q[i].1, q[i].2),
        drained(q, time)[j] == (q[j].1, q[j].2),
{
    lemma_ripe_iff_due(q, time);
}

impl Wire {
    /// Is `s` one of the two configured endpoints?
    pub open spec fn valid_sender(&self, s: MachineId) -> bool {
        s == self.end1 || s == self.end2
    }

    /// The endpoint opposite to `s`.
    pub open spec fn opposite(&self, s: MachineId) -> MachineId {
        if s == self.end1 {
            self.end2
        } else {
            self.end1
        }
    }

    /// The pending deliveries, with payloads abstracted to byte sequences.
    pub open spec fn entries(&self) -> Seq<(Time, MachineId, Seq<u8>)> {
        self.outgoing@.map_values(|e: (Time, MachineId, Msg)| (e.0, e.1, e.2@))
    }

    /// The entries a poll at `time` appends for the given incoming mail:
    /// each payload is rerouted to the opposite endpoint and scheduled
    /// exactly `delay` ticks after `time`.
    pub open spec fn delayed(&self, time: Time, mail: Seq<(MachineId, Seq<u8>)>) -> Seq<
        (Time, MachineId, Seq<u8>),
    > {
        mail.map_values(
            |m: (MachineId, Seq<u8>)| (((time + self.delay) as Time), self.opposite(m.0), m.1),
        )
    }

    /// The fault a poll at `time` reports for the given incoming mail,
    /// if any: an unknown sender is a topology error, and a delivery
    /// time beyond the representable range is an arithmetic error.
    pub open spec fn ingest_fault(&self, time: Time, mail: Seq<(MachineId, Seq<u8>)>) -> Option<
        Fault,
    >
        decreases mail.len(),
    {
        if mail.len() == 0 {
            None
        } else if !self.valid_sender(mail[0].0) {
            Some(Fault::UnknownSender)
        } else if time + self.delay > u64::MAX {
            Some(Fault::TimeOverflow)
        } else {
            self.ingest_fault(time, mail.drop_first())
        }
    }

    /// When the first `k` incoming entries raise no fault, the fault of
    /// the whole is the fault of the rest.
    pub proof fn lemma_ingest_fault_split(&self, time: Time, mail: Seq<(MachineId, Seq<u8>)>, k: int)
        requires
            0 <= k <= mail.len(),
            forall|j: int| 0 <= j < k ==> self.valid_sender((#[trigger] mail[j]).0),
            k > 0 ==> time + self.delay <= u64::MAX,
        ensures
            self.ingest_fault(time, mail) == self.ingest_fault(time, mail.skip(k)),
        decreases k,
    {
        if k > 0 {
            self.lemma_ingest_fault_split(time, mail.drop_first(), k - 1);
            assert(mail.drop_first().skip(k - 1) =~= mail.skip(k));
        } else {
            assert(mail.skip(0) =~= mail);
        }
    }

    /// Internal consistency: pending deliveries are sorted by time, lie
    /// strictly after the last poll but at most `delay` after it, and
    /// are addressed to one of the two endpoints.
    pub open spec fn inv(&self) -> bool {
        &&& entries_sorted(self.entries())
        &&& forall|i: int| 0 <= i < self.entries().len() ==> {
            let e = (#[trigger] self.entries()[i]);
            &&& self.last@ < e.0 <= self.last@ + self.delay
            &&& (e.1 == self.end1 || e.1 == self.end2)
        }
    }

    /// Creates a wire between `end1` and `end2` that imposes the given
    /// propagation delay, with nothing in flight.
    pub fn new(end1: MachineId, end2: MachineId, delay: Time) -> (w: Wire)
        ensures
            w.wf(),
            w.end1 == end1,
            w.end2 == end2,
            w.delay == delay,
            w.entries() == Seq::<(Time, MachineId, Seq<u8>)>::empty(),
            w.last_time() == 0,
            w.next_wake() is None,
    {
        let w = Wire { end1, end2, delay, outgoing: Vec::new(), last: Ghost(0) };
        proof {
            assert(w.entries() =~= Seq::<(Time, MachineId, Seq<u8>)>::empty());
        }
        w
    }
}

impl Node for Wire {
    open spec fn wf(&self) -> bool {
        self.inv()
    }

    open spec fn last_time(&self) -> Time {
        self.last@
    }

    open spec fn next_wake(&self) -> Option<Time> {
        if self.entries().len() == 0 {
            None
        } else {
            Some(self.entries()[0].0)
        }
    }

    open spec fn poll_fault(&self, time: Time, incoming: Seq<(MachineId, Seq<u8>)>) -> Option<
        Fault,
    > {
        self.ingest_fault(time, incoming)
    }

    /// Appends every inbound payload to the tail of the queue, scheduled
    /// for the opposite endpoint `delay` ticks from now, then hands out
    /// every queued payload whose scheduled time has arrived, in queue
    /// order.
    #[verifier::loop_isolation(false)]
    #[verifier::rlimit(50)]
    fn poll(&mut self, time: Time, incoming: PollResult) -> (r: Result<PollResult, Fault>)
        ensures
            r is Err <==> old(self).ingest_fault(time, mail_view(incoming@)) is Some,
            r matches Err(f) ==> Some(f) == old(self).ingest_fault(time, mail_view(incoming@)),
            r matches Ok(out) ==> ({
                let q1 = old(self).entries() + old(self).delayed(time, mail_view(incoming@));
                &&& final(self).entries() == q1.skip(ripe_prefix_len(q1, time))
                &&& mail_view(out@) == drained(q1, time)
                &&& final(self).end1 == old(self).end1
                &&& final(self).end2 == old(self).end2
                &&& final(self).delay == old(self).delay
                &&& final(self).last@ == time
            }),
    {
        let ghost orig = mail_view(incoming@);
        let ghost base = self.entries();
        let mut incoming = incoming;

        // ingest: schedule every inbound payload for the other end
        while incoming.len() > 0
            invariant
                time >= self.last@,
                entries_sorted(self.entries()),
                forall|i: int| 0 <= i < self.entries().len() ==> {
                    let e = (#[trigger] self.entries()[i]);
                    &&& e.0 <= time + self.delay
                    &&& (e.1 == self.end1 || e.1 == self.end2)
                },
                self.end1 == old(self).end1,
                self.end2 == old(self).end2,
                self.delay == old(self).delay,
                self.last@ == old(self).last@,
                base == old(self).entries(),
                mail_view(incoming@) =~= orig.skip(orig.len() - incoming@.len()),
                incoming@.len() <= orig.len(),
                forall|j: int| 0 <= j < orig.len() - incoming@.len()
                    ==> old(self).valid_sender((#[trigger] orig[j]).0),
                orig.len() - incoming@.len() > 0 ==> time + old(self).delay <= u64::MAX,
                self.entries() =~= base + old(self).delayed(
                    time,
                    orig.take(orig.len() - incoming@.len()),
                ),
            decreases incoming@.len(),
        {
            let ghost k = orig.len() - incoming@.len();
            let ghost pre_inc = incoming@;
            let (sender, message) = incoming.remove(0);
            proof {
                assert(mail_view(pre_inc)[0] == orig.skip(k)[0]);
                assert(orig.skip(k)[0] == (sender, message@));
                assert(incoming@ =~= pre_inc.drop_first());
                assert forall|i: int| 0 <= i < incoming@.len() implies mail_view(incoming@)[i]
                    == orig.skip(k + 1)[i] by {
                    assert(incoming@[i] == pre_inc[i + 1]);
                    assert(mail_view(pre_inc)[i + 1] == orig.skip(k)[i + 1]);
                    assert(orig.skip(k)[i + 1] == orig[k + 1 + i]);
                    assert(orig.skip(k + 1)[i] == orig[k + 1 + i]);
                }
            }
            let dest = if sender == self.end1 {
                self.end2
            } else if sender == self.end2 {
                self.end1
            } else {
                proof {
                    old(self).lemma_ingest_fault_split(time, orig, k);
                }
                return Err(Fault::UnknownSender);
            };
            let out_time = match time.checked_add(self.delay) {
                Some(t) => t,
                None => {
                    proof {
                        old(self).lemma_ingest_fault_split(time, orig, k);
                    }
                    return Err(Fault::TimeOverflow);
                }
            };
            let ghost pre_entries = self.entries();
            self.outgoing.push((out_time, dest, message));
            proof {
                assert(mail_view(incoming@) =~= orig.skip(k + 1));
                assert(orig[k] == (sender, message@));
                assert(self.entries() =~= pre_entries.push((out_time, dest, message@)));
                assert(old(self).delayed(time, orig.take(k + 1)) =~= old(self).delayed(
                    time,
                    orig.take(k),
                ).push(((time + old(self).delay) as Time, old(self).opposite(orig[k].0), orig[k].1)));
                assert(self.entries() =~= base + old(self).delayed(time, orig.take(k + 1)));
            }
        }
        proof {
            assert(orig.take(orig.len() as int) =~= orig);
            old(self).lemma_ingest_fault_split(time, orig, orig.len() as int);
            assert(orig.skip(orig.len() as int) =~= Seq::<(MachineId, Seq<u8>)>::empty());
            assert(old(self).ingest_fault(time, orig) is None);
        }

        let ghost q1 = base + old(self).delayed(time, orig);
        proof {
            assert(self.entries() =~= q1);
            lemma_ripe_iff_due(q1, time);
        }

        // drain: hand out everything whose scheduled time has arrived
        let mut result: PollResult = Vec::new();
        while self.outgoing.len() > 0 && self.outgoing[0].0 <= time
            invariant
                entries_sorted(q1),
                self.end1 == old(self).end1,
                self.end2 == old(self).end2,
                self.delay == old(self).delay,
                self.last@ == old(self).last@,
                time >= self.last@,
                result@.len() <= q1.len(),
                self.entries() =~= q1.skip(result@.len() as int),
                ripe_prefix_len(q1, time) == result@.len() + ripe_prefix_len(
                    self.entries(),
                    time,
                ),
                mail_view(result@) =~= q1.take(result@.len() as int).map_values(
                    |e: (Time, MachineId, Seq<u8>)| (e.1, e.2),
                ),
                forall|i: int| 0 <= i < self.entries().len() ==> {
                    let e = (#[trigger] self.entries()[i]);
                    &&& e.0 <= time + self.delay
                    &&& (e.1 == self.end1 || e.1 == self.end2)
                },
            decreases self.outgoing@.len(),
        {
            let ghost t = result@.len() as int;
            let ghost pre_mail = mail_view(result@);
            let (_out_time, dest, msg) = self.outgoing.remove(0);
            result.push((dest, msg));
            proof {
                assert(q1.skip(t)[0] == q1[t]);
                assert(self.entries() =~= q1.skip(t).drop_first());
                assert(self.entries() =~= q1.skip(t + 1));
                assert(q1[t] == (_out_time, dest, msg@));
                assert(mail_view(result@) =~= pre_mail.push((dest, msg@)));
                assert(q1.take(t + 1) =~= q1.take(t).push(q1[t]));
                assert(mail_view(result@) =~= q1.take(t + 1).map_values(
                    |e: (Time, MachineId, Seq<u8>)| (e.1, e.2),
                ));
            }
        }
        proof {
            assert(ripe_prefix_len(self.entries(), time) == 0);
            assert(ripe_prefix_len(q1, time) == result@.len());
            assert(mail_view(result@) =~= drained(q1, time));
        }
        self.last = Ghost(time);
        proof {
            let k = result@.len() as int;
            assert forall|i: int| 0 <= i < self.entries().len() implies {
                let e = (#[trigger] self.entries()[i]);
                &&& time < e.0 <= time + self.delay
                &&& (e.1 == self.end1 || e.1 == self.end2)
            } by {
                assert(self.entries()[i] == q1[k + i]);
                assert(self.entries()[0] == q1[k]);
                assert(q1[k].0 <= q1[k + i].0);
                assert(self.entries()[0].0 == self.outgoing@[0].0);
            }
            assert(entries_sorted(self.entries())) by {
                assert forall|i: int, j: int|
                    0 <= i <= j < self.entries().len() implies (#[trigger] self.entries()[i]).0 <= (
                #[trigger] self.entries()[j]).0 by {
                    assert(self.entries()[i] == q1[k + i]);
                    assert(self.entries()[j] == q1[k + j]);
                }
            }
        }
        Ok(result)
    }

    fn poll_at(&self) -> (r: Option<Time>)
        ensures
            r == self.next_wake(),
    {
        if self.outgoing.len() == 0 {
            None
        } else {
            Some(self.outgoing[0].0)
        }
    }
}

} // verus!
