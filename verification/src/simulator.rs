//! The message-routing simulation loop.
//!
//! A [`Node`] is a thing in a simulation that is separated from other
//! nodes: it could represent a machine on a network, or anything at all.
//! The loop in [`run_sim_until`] polls nodes in time order and carries
//! their outgoing messages to the mailboxes of the addressed nodes.

use vstd::prelude::*;

use crate::{Fault, MachineId, PollResult, Time};
use crate::take_all;

verus! {

/// The polling contract every simulated participant must satisfy.
///
/// The simulation loop promises, and proves, that the `time` handed to
/// `poll` never decreases across calls on one node: a node is never
/// taken back in time.
///
/// The three spec functions are the node's abstraction; verified
/// implementations define them, while an implementation outside the
/// proofs — say, a host wrapping a real protocol stack — may leave
/// them at their defaults and only supply the two methods.
pub trait Node: Sized {
    /// Is this node internally consistent?
    open spec fn wf(&self) -> bool {
        true
    }

    /// The largest time this node has observed so far.
    open spec fn last_time(&self) -> Time {
        0
    }

    /// The wake-up request this node currently reports: the next time it
    /// wants to be polled absent any external stimulus.
    open spec fn next_wake(&self) -> Option<Time> {
        None
    }

    /// The fatal fault, if any, that one poll at `time` with the given
    /// incoming mail reports.  Pinning this as a function of the node's
    /// state makes a fault impossible to invent or suppress: `poll`
    /// fails exactly when this says so.
    open spec fn poll_fault(&self, time: Time, incoming: Seq<(MachineId, Seq<u8>)>) -> Option<
        Fault,
    > {
        None
    }

    /// Tells the node the current time, and the messages it has received
    /// (each paired with the sender's identity), so it can act
    /// accordingly.  Returns the messages it wants to send out, each
    /// paired with the identity of the addressed node, or a fatal fault.
    fn poll(&mut self, time: Time, incoming: PollResult) -> (r: Result<PollResult, Fault>)
        requires
            old(self).wf(),
            time >= old(self).last_time(),
        ensures
            r is Err <==> old(self).poll_fault(time, crate::mail_view(incoming@)) is Some,
            r matches Err(f) ==> Some(f) == old(self).poll_fault(
                time,
                crate::mail_view(incoming@),
            ),
            r is Ok ==> final(self).wf(),
            r is Ok ==> final(self).last_time() == time,
            r is Ok ==> (final(self).next_wake() matches Some(t) ==> t >= time),
    ;

    /// Reports the next time this node should be polled, if any.
    fn poll_at(&self) -> (r: Option<Time>)
        requires
            self.wf(),
        ensures
            r == self.next_wake(),
    ;
}

/// Every node of the slice is internally consistent.
pub open spec fn all_wf<N: Node>(nodes: Seq<N>) -> bool {
    forall|i: int| 0 <= i < nodes.len() ==> (#[trigger] nodes[i]).wf()
}

/// Every wake-up request of every node lies at or after `t`.
pub open spec fn wakes_at_or_after<N: Node>(nodes: Seq<N>, t: Time) -> bool {
    forall|i: int| 0 <= i < nodes.len()
        ==> ((#[trigger] nodes[i]).next_wake() matches Some(w) ==> w >= t)
}

/// Every node has last been polled at or before `t`.
pub open spec fn lasts_at_or_before<N: Node>(nodes: Seq<N>, t: Time) -> bool {
    forall|i: int| 0 <= i < nodes.len() ==> (#[trigger] nodes[i]).last_time() <= t
}

/// No node has been polled later than any pending wake-up request: the
/// state a simulation must start from.
pub open spec fn starts_before_wakes<N: Node>(nodes: Seq<N>) -> bool {
    forall|i: int, j: int|
        0 <= i < nodes.len() && 0 <= j < nodes.len()
            ==> ((#[trigger] nodes[j]).next_wake() matches Some(w)
                ==> (#[trigger] nodes[i]).last_time() <= w)
}

/// The earliest wake-up request among the first `n` nodes, together with
/// the index of the first node that reports it.
pub open spec fn earliest_upto<N: Node>(nodes: Seq<N>, n: int) -> Option<(MachineId, Time)>
    decreases n,
{
    if n <= 0 {
        None
    } else {
        let prev = earliest_upto(nodes, n - 1);
        match nodes[n - 1].next_wake() {
            Some(t) => match prev {
                Some((j, tj)) => if t < tj {
                    Some(((n - 1) as MachineId, t))
                } else {
                    prev
                },
                None => Some(((n - 1) as MachineId, t)),
            },
            None => prev,
        }
    }
}

/// What [`earliest_upto`] reports is a real wake-up request, and no node
/// before `n` asks to wake earlier.
pub proof fn lemma_earliest_upto<N: Node>(nodes: Seq<N>, n: int)
    requires
        n <= nodes.len(),
        n <= usize::MAX,
    ensures
        earliest_upto(nodes, n) matches Some((i, t)) ==> {
            &&& 0 <= i < n
            &&& nodes[i as int].next_wake() == Some(t)
            &&& forall|j: int| 0 <= j < n
                ==> ((#[trigger] nodes[j]).next_wake() matches Some(w) ==> w >= t)
        },
        earliest_upto(nodes, n) is None
            ==> forall|j: int| 0 <= j < n ==> (#[trigger] nodes[j]).next_wake() is None,
    decreases n,
{
    if n > 0 {
        lemma_earliest_upto(nodes, n - 1);
    }
}

/// Goes through the nodes and returns the index of the one with the
/// earliest poll time, together with that time.
pub fn earliest_poll_time<N: Node>(nodes: &Vec<N>) -> (r: Option<(MachineId, Time)>)
    requires
        all_wf(nodes@),
    ensures
        r == earliest_upto(nodes@, nodes@.len() as int),
{
    let mut earliest: Option<(MachineId, Time)> = None;
    let mut i: usize = 0;
    while i < nodes.len()
        invariant
            i <= nodes@.len(),
            all_wf(nodes@),
            earliest == earliest_upto(nodes@, i as int),
        decreases nodes@.len() - i,
    {
        let w = nodes[i].poll_at();
        match (w, earliest) {
            (Some(t), Some((_j, tj))) => {
                if t < tj {
                    earliest = Some((i, t));
                }
            }
            (Some(t), None) => {
                earliest = Some((i, t));
            }
            _ => {}
        }
        i = i + 1;
    }
    earliest
}

/// The index of the first non-empty mailbox among the first `n`, if any.
pub open spec fn first_full_mailbox(mail: Seq<PollResult>, n: int) -> Option<MachineId>
    decreases n,
{
    if n <= 0 {
        None
    } else {
        match first_full_mailbox(mail, n - 1) {
            Some(i) => Some(i),
            None => if mail[n - 1]@.len() > 0 {
                Some((n - 1) as MachineId)
            } else {
                None
            },
        }
    }
}

/// What [`first_full_mailbox`] reports is in range and non-empty, and
/// when it reports nothing every mailbox is empty.
pub proof fn lemma_first_full_mailbox(mail: Seq<PollResult>, n: int)
    requires
        n <= mail.len(),
        n <= usize::MAX,
    ensures
        first_full_mailbox(mail, n) matches Some(i)
            ==> 0 <= i < n && mail[i as int]@.len() > 0,
        first_full_mailbox(mail, n) is None
            ==> forall|j: int| 0 <= j < n ==> (#[trigger] mail[j])@.len() == 0,
    decreases n,
{
    if n > 0 {
        lemma_first_full_mailbox(mail, n - 1);
    }
}

/// The scheduling pick, as a function of the simulation state: a node
/// with undelivered mail — the lowest such index — is polled first, at
/// the current time; otherwise the node with the earliest wake-up
/// request is polled at that request's time, ties to the lowest index.
pub open spec fn sim_pick<N: Node>(
    nodes: Seq<N>,
    mailboxes: Seq<PollResult>,
    current_time: Time,
) -> Option<(MachineId, Time)> {
    match first_full_mailbox(mailboxes, mailboxes.len() as int) {
        Some(i) => Some((i, current_time)),
        None => earliest_upto(nodes, nodes.len() as int),
    }
}

/// Delivery adds no delay at the loop level: whenever any node has
/// undelivered mail, the scheduling pick is a node with mail, polled
/// at the current time — the loop never proceeds to a different
/// timestamp while mail is waiting.
pub proof fn lemma_mail_first<N: Node>(nodes: Seq<N>, mailboxes: Seq<PollResult>, now: Time)
    ensures
        first_full_mailbox(mailboxes, mailboxes.len() as int) matches Some(i) ==> sim_pick(
            nodes,
            mailboxes,
            now,
        ) == Some((i, now)),
{
}

/// No-mail dormancy at the loop level: a node with an empty mailbox
/// and no wake-up request is never the scheduling pick — it stays
/// dormant until a message arrives for it.
pub proof fn lemma_dormant_not_picked<N: Node>(
    nodes: Seq<N>,
    mailboxes: Seq<PollResult>,
    now: Time,
    m: int,
)
    requires
        0 <= m < nodes.len(),
        nodes.len() == mailboxes.len(),
        nodes.len() <= usize::MAX,
        mailboxes[m]@.len() == 0,
        nodes[m].next_wake() is None,
    ensures
        sim_pick(nodes, mailboxes, now) matches Some((i, t)) ==> i != m,
{
    lemma_first_full_mailbox(mailboxes, mailboxes.len() as int);
    lemma_earliest_upto(nodes, nodes.len() as int);
}

/// Picks the node the simulation loop must poll next: exactly
/// [`sim_pick`].
pub fn machine_to_poll<N: Node>(
    nodes: &Vec<N>,
    mailboxes: &Vec<PollResult>,
    current_time: Time,
) -> (r: Option<(MachineId, Time)>)
    requires
        all_wf(nodes@),
    ensures
        r == sim_pick(nodes@, mailboxes@, current_time),
{
    // a machine with messages in its mailbox is polled first
    let mut i: usize = 0;
    while i < mailboxes.len()
        invariant
            i <= mailboxes@.len(),
            first_full_mailbox(mailboxes@, i as int) is None,
        decreases mailboxes@.len() - i,
    {
        if mailboxes[i].len() > 0 {
            assert(first_full_mailbox(mailboxes@, i + 1) == Some(i));
            proof {
                lemma_first_full_mailbox_stable(mailboxes@, i + 1, mailboxes@.len() as int);
            }
            return Some((i, current_time));
        }
        i = i + 1;
    }
    earliest_poll_time(nodes)
}

/// Once a full mailbox is found among a prefix, looking further never
/// changes the answer.
proof fn lemma_first_full_mailbox_stable(mail: Seq<PollResult>, n: int, m: int)
    requires
        0 <= n <= m <= mail.len(),
        first_full_mailbox(mail, n) is Some,
    ensures
        first_full_mailbox(mail, m) == first_full_mailbox(mail, n),
    decreases m,
{
    if m > n {
        lemma_first_full_mailbox_stable(mail, n, m - 1);
    }
}

/// The mailboxes, with payloads abstracted to byte sequences.
pub open spec fn boxes_view(mailboxes: Seq<PollResult>) -> Seq<Seq<(MachineId, Seq<u8>)>> {
    mailboxes.map_values(|b: PollResult| crate::mail_view(b@))
}

/// The mailboxes after the messages of `out` are appended, in order,
/// each one exactly once to its addressee's mailbox and tagged with
/// `sender`.
pub open spec fn with_mail(
    boxes: Seq<Seq<(MachineId, Seq<u8>)>>,
    sender: MachineId,
    out: Seq<(MachineId, Seq<u8>)>,
) -> Seq<Seq<(MachineId, Seq<u8>)>>
    decreases out.len(),
{
    if out.len() == 0 {
        boxes
    } else {
        let d = out[0].0 as int;
        with_mail(boxes.update(d, boxes[d].push((sender, out[0].1))), sender, out.drop_first())
    }
}

/// Delivery touches no mailbox that is not addressed.
proof fn lemma_with_mail_len(
    boxes: Seq<Seq<(MachineId, Seq<u8>)>>,
    sender: MachineId,
    out: Seq<(MachineId, Seq<u8>)>,
)
    requires
        forall|k: int| 0 <= k < out.len() ==> (#[trigger] out[k]).0 < boxes.len(),
    ensures
        with_mail(boxes, sender, out).len() == boxes.len(),
    decreases out.len(),
{
    if out.len() > 0 {
        let d = out[0].0 as int;
        lemma_with_mail_len(
            boxes.update(d, boxes[d].push((sender, out[0].1))),
            sender,
            out.drop_first(),
        );
    }
}

/// Delivering one more message appends it to its addressee's mailbox
/// and changes nothing else.
proof fn lemma_with_mail_push(
    boxes: Seq<Seq<(MachineId, Seq<u8>)>>,
    sender: MachineId,
    out: Seq<(MachineId, Seq<u8>)>,
    x: (MachineId, Seq<u8>),
)
    requires
        forall|k: int| 0 <= k < out.len() ==> (#[trigger] out[k]).0 < boxes.len(),
        x.0 < boxes.len(),
    ensures
        with_mail(boxes, sender, out.push(x)) == with_mail(boxes, sender, out).update(
            x.0 as int,
            with_mail(boxes, sender, out)[x.0 as int].push((sender, x.1)),
        ),
    decreases out.len(),
{
    if out.len() == 0 {
        let b1 = boxes.update(x.0 as int, boxes[x.0 as int].push((sender, x.1)));
        assert(out.push(x)[0] == x);
        assert(out.push(x).drop_first() =~= Seq::<(MachineId, Seq<u8>)>::empty());
        assert(with_mail(boxes, sender, out) == boxes);
        assert(with_mail(boxes, sender, out.push(x)) == with_mail(
            b1,
            sender,
            out.push(x).drop_first(),
        ));
        assert(with_mail(b1, sender, Seq::<(MachineId, Seq<u8>)>::empty()) == b1);
    } else {
        let d = out[0].0 as int;
        let b1 = boxes.update(d, boxes[d].push((sender, out[0].1)));
        assert(out.push(x)[0] == out[0]);
        assert(out.push(x).drop_first() =~= out.drop_first().push(x));
        lemma_with_mail_push(b1, sender, out.drop_first(), x);
        assert(with_mail(boxes, sender, out.push(x)) == with_mail(
            b1,
            sender,
            out.drop_first().push(x),
        ));
        assert(with_mail(boxes, sender, out) == with_mail(b1, sender, out.drop_first()));
    }
}

/// Returns a fresh copy of the given bytes.
fn copy_bytes(v: &Vec<u8>) -> (r: Vec<u8>)
    ensures
        r@ == v@,
{
    let mut r: Vec<u8> = Vec::new();
    let mut j: usize = 0;
    while j < v.len()
        invariant
            j <= v@.len(),
            r@ == v@.take(j as int),
        decreases v@.len() - j,
    {
        let b = v[j];
        r.push(b);
        proof {
            assert(r@ =~= v@.take(j + 1));
        }
        j = j + 1;
    }
    proof {
        assert(v@.take(v@.len() as int) =~= v@);
    }
    r
}

/// What one scheduling step did.
pub enum SimStepOutcome {
    /// No node has mail and none reports a wake-up request: nothing
    /// will ever happen again without outside input.
    Idle,
    /// The next pick lies past the deadline: the window is over, and
    /// nothing was touched.
    Deferred,
    /// One node was polled and every message it sent was delivered.
    Polled {
        /// The node that was polled.
        id: MachineId,
        /// The time it was polled at.
        time: Time,
        /// The (destination, payload) pairs it sent, in order.
        sent: PollResult,
    },
}

/// One step of the simulation loop: picks the node [`sim_pick`] names,
/// drains its mailbox, polls it, and — after checking every addressee
/// exists — appends each message it sent, in order, exactly once to
/// the addressee's mailbox, tagged with the true sender.
#[verifier::loop_isolation(false)]
#[verifier::rlimit(100)]
pub fn sim_step<N: Node>(
    nodes: &mut Vec<N>,
    mailboxes: &mut Vec<PollResult>,
    now: Time,
    deadline: Time,
) -> (r: Result<SimStepOutcome, Fault>)
    requires
        all_wf(old(nodes)@),
        old(mailboxes)@.len() == old(nodes)@.len(),
        lasts_at_or_before(old(nodes)@, now),
        wakes_at_or_after(old(nodes)@, now),
    ensures
        final(nodes)@.len() == old(nodes)@.len(),
        final(mailboxes)@.len() == old(mailboxes)@.len(),
        r == Ok::<SimStepOutcome, Fault>(SimStepOutcome::Idle) <==> sim_pick(old(nodes)@, old(mailboxes)@, now) is None,
        r == Ok::<SimStepOutcome, Fault>(SimStepOutcome::Deferred) <==> (sim_pick(old(nodes)@, old(mailboxes)@, now)
            matches Some((i, t)) && t > deadline),
        (r == Ok::<SimStepOutcome, Fault>(SimStepOutcome::Idle) || r == Ok::<SimStepOutcome, Fault>(SimStepOutcome::Deferred)) ==> (final(nodes)@
            == old(nodes)@ && final(mailboxes)@ == old(mailboxes)@),
        // a fault can be neither invented nor suppressed: the polled
        // node fails exactly when its own contract says so, and an
        // unknown addressee is the one further cause
        sim_pick(old(nodes)@, old(mailboxes)@, now) matches Some((i, t)) ==> (t <= deadline
            ==> ({
            let fault = old(nodes)@[i as int].poll_fault(
                t,
                crate::mail_view(old(mailboxes)@[i as int]@),
            );
            &&& (fault matches Some(f) ==> r == Err::<SimStepOutcome, Fault>(f))
            &&& (r is Err ==> (fault matches Some(f) ==> r == Err::<SimStepOutcome, Fault>(f)) && (fault is None ==> r
                == Err::<SimStepOutcome, Fault>(Fault::UnknownDestination)))
            &&& forall|j: int|
                0 <= j < old(nodes)@.len() && j != i ==> final(nodes)@[j] == old(nodes)@[j]
        })),
        r is Err ==> (sim_pick(old(nodes)@, old(mailboxes)@, now) matches Some((i, t)) && t
            <= deadline && boxes_view(final(mailboxes)@) == boxes_view(old(mailboxes)@).update(
            i as int,
            Seq::<(MachineId, Seq<u8>)>::empty(),
        )),
        r matches Ok(SimStepOutcome::Polled { id, time, sent }) ==> ({
            &&& sim_pick(old(nodes)@, old(mailboxes)@, now) == Some((id, time))
            &&& time <= deadline
            &&& now <= time
            &&& old(nodes)@[id as int].poll_fault(
                time,
                crate::mail_view(old(mailboxes)@[id as int]@),
            ) is None
            &&& final(nodes)@[id as int].wf()
            &&& final(nodes)@[id as int].last_time() == time
            &&& (final(nodes)@[id as int].next_wake() matches Some(w) ==> w >= time)
            &&& forall|k: int| 0 <= k < sent@.len() ==> (#[trigger] sent@[k]).0 < old(nodes)@.len()
            &&& boxes_view(final(mailboxes)@) == with_mail(
                boxes_view(old(mailboxes)@).update(
                    id as int,
                    Seq::<(MachineId, Seq<u8>)>::empty(),
                ),
                id,
                crate::mail_view(sent@),
            )
        }),
{
    let count = nodes.len();
    let picked = machine_to_poll(nodes, mailboxes, now);
    proof {
        lemma_first_full_mailbox(mailboxes@, mailboxes@.len() as int);
        lemma_earliest_upto(nodes@, nodes@.len() as int);
    }
    let (i, t) = match picked {
        None => {
            return Ok(SimStepOutcome::Idle);
        }
        Some(p) => p,
    };
    if t > deadline {
        return Ok(SimStepOutcome::Deferred);
    }

    let incoming = take_all(&mut mailboxes[i]);
    proof {
        assert(crate::mail_view(mailboxes@[i as int]@) =~= Seq::<(MachineId, Seq<u8>)>::empty());
        assert(boxes_view(mailboxes@) =~= boxes_view(old(mailboxes)@).update(
            i as int,
            Seq::<(MachineId, Seq<u8>)>::empty(),
        ));
    }
    let out = match nodes[i].poll(t, incoming) {
        Ok(out) => out,
        Err(f) => {
            return Err(f);
        }
    };

    // every addressee must exist before anything is delivered
    let mut k: usize = 0;
    while k < out.len()
        invariant
            k <= out@.len(),
            forall|x: int| 0 <= x < k ==> (#[trigger] out@[x]).0 < count,
        decreases out@.len() - k,
    {
        if out[k].0 >= count {
            return Err(Fault::UnknownDestination);
        }
        k = k + 1;
    }

    // deliver in order: each message goes exactly once to its
    // addressee's mailbox, tagged with the sender
    let ghost base = boxes_view(mailboxes@);
    let ghost outv = crate::mail_view(out@);
    let mut k2: usize = 0;
    while k2 < out.len()
        invariant
            k2 <= out@.len(),
            mailboxes@.len() == count,
            boxes_view(mailboxes@) == with_mail(base, i, outv.take(k2 as int)),
        decreases out@.len() - k2,
    {
        let dest = out[k2].0;
        let m = copy_bytes(&out[k2].1);
        let ghost pre_boxes = boxes_view(mailboxes@);
        let ghost pre_vec = mailboxes@[dest as int]@;
        mailboxes[dest].push((i, m));
        proof {
            assert(mailboxes@[dest as int]@ == pre_vec.push((i, m)));
            assert(crate::mail_view(mailboxes@[dest as int]@) =~= pre_boxes[dest as int].push(
                (i, m@),
            ));
            assert(boxes_view(mailboxes@) =~= pre_boxes.update(
                dest as int,
                pre_boxes[dest as int].push((i, m@)),
            ));
            assert forall|x: int|
                0 <= x < outv.take(k2 as int).len() implies (#[trigger] outv.take(
                k2 as int,
            )[x]).0 < base.len() by {
                assert(outv.take(k2 as int)[x] == outv[x]);
            }
            lemma_with_mail_len(base, i, outv.take(k2 as int));
            assert(outv[k2 as int] == (dest, m@));
            lemma_with_mail_push(base, i, outv.take(k2 as int), outv[k2 as int]);
            assert(outv.take(k2 + 1) =~= outv.take(k2 as int).push(outv[k2 as int]));
            assert(boxes_view(mailboxes@) == with_mail(base, i, outv.take(k2 + 1)));
        }
        k2 = k2 + 1;
    }
    proof {
        assert(outv.take(outv.len() as int) =~= outv);
    }
    Ok(SimStepOutcome::Polled { id: i, time: t, sent: out })
}

/// How a simulation run ended and what it left behind.
#[derive(Debug, PartialEq, Eq)]
pub struct RunReport {
    /// How many polls were made.
    pub steps: usize,
    /// True: nothing remained to do at or before the end time.  False:
    /// the step budget ran out first.
    pub finished: bool,
    /// The mail still sitting in the mailboxes when the run stopped,
    /// indexed by addressee — empty everywhere when the run finished,
    /// so no delivered message is ever silently dropped.
    pub undelivered: Vec<PollResult>,
}

/// Runs a simulation of the machines until the given time has passed,
/// or the step budget runs out, or a node reports a fatal fault.
///
/// Each step is one [`sim_step`]: the node [`sim_pick`] names is
/// polled — with its pending mail at the current time if any node has
/// mail, else at its own earliest wake-up request — and every message
/// it sent is delivered, in order, exactly once, to its addressee's
/// mailbox.  Time never moves backward, no node ever observes a time
/// below the last one it was handed, and a finished run is really
/// over: every remaining wake-up request lies past `end_time` and no
/// undelivered mail remains.
pub fn run_sim_until<N: Node>(
    nodes: &mut Vec<N>,
    end_time: Time,
    max_steps: usize,
) -> (r: Result<RunReport, Fault>)
    requires
        all_wf(old(nodes)@),
        starts_before_wakes(old(nodes)@),
    ensures
        final(nodes)@.len() == old(nodes)@.len(),
        // a fault can only come out of a run that had work to do
        r is Err ==> (earliest_upto(old(nodes)@, old(nodes)@.len() as int) is Some && max_steps
            > 0),
        r matches Ok(rep) ==> ({
            &&& all_wf(final(nodes)@)
            &&& rep.undelivered@.len() == old(nodes)@.len()
            &&& rep.steps <= max_steps
            &&& (!rep.finished ==> rep.steps == max_steps)
            &&& (rep.finished ==> forall|i: int|
                0 <= i < final(nodes)@.len() ==> ((#[trigger] final(nodes)@[i]).next_wake()
                    matches Some(w) ==> w > end_time))
            &&& (rep.finished ==> forall|i: int|
                0 <= i < rep.undelivered@.len() ==> (#[trigger] rep.undelivered@[i])@.len() == 0)
            &&& forall|i: int|
                0 <= i < final(nodes)@.len() ==> ((#[trigger] final(nodes)@[i]).last_time()
                    <= end_time || final(nodes)@[i].last_time() == old(nodes)@[i].last_time())
        }),
{
    let count: usize = nodes.len();
    let ghost n_nodes = nodes@.len();

    // the messages each machine needs to receive
    let mut mailboxes: Vec<PollResult> = Vec::new();
    let mut k: usize = 0;
    while k < count
        invariant
            count == nodes@.len(),
            mailboxes@.len() == k,
            k <= nodes@.len(),
            forall|i: int| 0 <= i < k ==> (#[trigger] mailboxes@[i])@.len() == 0,
        decreases nodes@.len() - k,
    {
        mailboxes.push(Vec::new());
        k = k + 1;
    }

    // the clock starts at the earliest wake-up request; with no
    // requests at all there is nothing to run
    let mut now: Time;
    match earliest_poll_time(nodes) {
        Some((_first, t)) => {
            proof {
                lemma_earliest_upto(nodes@, nodes@.len() as int);
            }
            now = t;
        }
        None => {
            proof {
                lemma_earliest_upto(nodes@, nodes@.len() as int);
            }
            return Ok(RunReport { steps: 0, finished: true, undelivered: mailboxes });
        }
    }

    proof {
        lemma_first_full_mailbox(mailboxes@, mailboxes@.len() as int);
    }
    let mut steps: usize = 0;
    while steps < max_steps
        invariant
            n_nodes == old(nodes)@.len(),
            n_nodes <= usize::MAX,
            nodes@.len() == n_nodes,
            mailboxes@.len() == n_nodes,
            steps <= max_steps,
            earliest_upto(old(nodes)@, old(nodes)@.len() as int) is Some,
            all_wf(nodes@),
            lasts_at_or_before(nodes@, now),
            wakes_at_or_after(nodes@, now),
            first_full_mailbox(mailboxes@, mailboxes@.len() as int) is Some ==> now <= end_time,
            forall|i: int|
                0 <= i < n_nodes ==> ((#[trigger] nodes@[i]).last_time() <= end_time
                    || nodes@[i].last_time() == old(nodes)@[i].last_time()),
        decreases max_steps - steps,
    {
        let ghost pre_nodes = nodes@;
        let ghost pre_boxes = mailboxes@;
        let stepped = sim_step(nodes, &mut mailboxes, now, end_time);
        proof {
            lemma_first_full_mailbox(pre_boxes, pre_boxes.len() as int);
            lemma_earliest_upto(pre_nodes, pre_nodes.len() as int);
        }
        match stepped {
            Err(f) => {
                return Err(f);
            }
            Ok(SimStepOutcome::Idle) => {
                // no mail anywhere and no wake-up request at all
                return Ok(RunReport { steps, finished: true, undelivered: mailboxes });
            }
            Ok(SimStepOutcome::Deferred) => {
                // mail would have been picked at `now <= end_time`, so
                // the deferred pick is a wake-up request past the end,
                // and the earliest one: everything pending lies beyond
                return Ok(RunReport { steps, finished: true, undelivered: mailboxes });
            }
            Ok(SimStepOutcome::Polled { id, time, sent: _ }) => {
                proof {
                    if first_full_mailbox(pre_boxes, pre_boxes.len() as int) is None {
                        // the pick was the earliest wake-up request,
                        // so nobody wanted waking before `time`
                        assert(wakes_at_or_after(pre_nodes, time));
                    }
                    assert forall|i: int|
                        0 <= i < n_nodes implies ((#[trigger] nodes@[i]).next_wake() matches
                    Some(w) ==> w >= time) by {
                        if i != id {
                            assert(nodes@[i] == pre_nodes[i]);
                        }
                    }
                    assert forall|i: int| 0 <= i < n_nodes implies (#[trigger] nodes@[i]).wf()
                        && nodes@[i].last_time() <= time by {
                        if i != id {
                            assert(nodes@[i] == pre_nodes[i]);
                        }
                    }
                    assert forall|i: int|
                        0 <= i < n_nodes implies ((#[trigger] nodes@[i]).last_time() <= end_time
                        || nodes@[i].last_time() == old(nodes)@[i].last_time()) by {
                        if i != id {
                            assert(nodes@[i] == pre_nodes[i]);
                        }
                    }
                }
                now = time;
                steps = steps + 1;
            }
        }
    }
    // the step budget ran out; whatever mail is still waiting is
    // handed back rather than dropped
    Ok(RunReport { steps, finished: false, undelivered: mailboxes })
}

} // verus!
