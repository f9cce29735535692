//! A machine that receives a number, increments it, then waits some
//! time before sending it back.
//!
//! Per connection the state is either `WillSend(at_time, value)` — a
//! single byte `value` scheduled for transmission at `at_time` — or
//! `Waiting` for input.  On receipt of a byte `n` at time `t` the
//! machine schedules `n + 1` (saturating) to be sent at `t + (n + 1)`;
//! overflow of that time is a fatal fault, never silently clamped.

use vstd::prelude::*;

use crate::channel::{Channel, Network};
use crate::machine::Machine;
use crate::{Fault, MachineId, Time};

verus! {

/// The per-connection state of an [`IncMachine`].
#[derive(Clone, Copy, Debug, PartialEq, Eq, Structural)]
pub enum ConnectionInfo {
    /// A single byte, scheduled to be transmitted at the given time.
    WillSend(Time, u8),
    /// Idle, awaiting input.
    Waiting,
}

/// The increment applied to a received byte, saturating at the largest
/// representable value.
pub open spec fn bump(n: u8) -> u8 {
    if n == 255 {
        255
    } else {
        (n + 1) as u8
    }
}

/// The state a connection is in after one poll at `time`, given the
/// bytes waiting in its inbox.  A scheduled send fires — and resets the
/// connection to waiting — only once its time has arrived; a waiting
/// connection that finds a byte schedules the incremented value one
/// tick per unit of that value into the future.
pub open spec fn conn_after(ci: ConnectionInfo, time: Time, inbox: Seq<u8>) -> ConnectionInfo {
    match ci {
        ConnectionInfo::WillSend(when, _num) => if time >= when {
            ConnectionInfo::Waiting
        } else {
            ci
        },
        ConnectionInfo::Waiting => if inbox.len() > 0 {
            ConnectionInfo::WillSend((time + bump(inbox[0])) as Time, bump(inbox[0]))
        } else {
            ci
        },
    }
}

/// Whether one poll of this connection at `time` fails fatally: the
/// newly computed send time does not fit in `Time`.
pub open spec fn conn_faults(ci: ConnectionInfo, time: Time, inbox: Seq<u8>) -> bool {
    ci is Waiting && inbox.len() > 0 && time + bump(inbox[0]) > u64::MAX
}

/// The bytes one poll at `time` appends to this connection's outbox.
pub open spec fn sent_bytes(ci: ConnectionInfo, time: Time) -> Seq<u8> {
    match ci {
        ConnectionInfo::WillSend(when, num) => if time >= when {
            seq![num]
        } else {
            Seq::<u8>::empty()
        },
        ConnectionInfo::Waiting => Seq::<u8>::empty(),
    }
}

/// What remains in this connection's inbox after one poll: a waiting
/// connection drains it atomically, a scheduled one leaves it alone.
pub open spec fn inbox_after(ci: ConnectionInfo, inbox: Seq<u8>) -> Seq<u8> {
    if ci is Waiting {
        Seq::<u8>::empty()
    } else {
        inbox
    }
}

/// The state the tie-break seeds a fresh connection with: the side with
/// the numerically lower identity is scheduled to send `1` one tick
/// after connecting; the other side starts out waiting.
pub open spec fn seeded(channel: Channel, time: Time) -> ConnectionInfo {
    if channel.self_id < channel.peer_id {
        ConnectionInfo::WillSend((time + 1) as Time, 1)
    } else {
        ConnectionInfo::Waiting
    }
}

/// Does this connection hold a send scheduled exactly at `t`?
pub open spec fn scheduled_at(ci: ConnectionInfo, t: Time) -> bool {
    ci matches ConnectionInfo::WillSend(w, _) && w == t
}

/// The earliest scheduled send time among the first `n` connection
/// states, if any.
pub open spec fn wake_upto(states: Seq<ConnectionInfo>, n: int) -> Option<Time>
    decreases n,
{
    if n <= 0 {
        None
    } else {
        let prev = wake_upto(states, n - 1);
        match states[n - 1] {
            ConnectionInfo::WillSend(w, _) => match prev {
                Some(t) => if w < t {
                    Some(w)
                } else {
                    Some(t)
                },
                None => Some(w),
            },
            ConnectionInfo::Waiting => prev,
        }
    }
}

/// What [`wake_upto`] reports is some connection's scheduled time, and
/// no connection is scheduled earlier; when it reports nothing, every
/// connection is waiting.
pub proof fn lemma_wake_upto(states: Seq<ConnectionInfo>, n: int)
    requires
        n <= states.len(),
    ensures
        wake_upto(states, n) matches Some(t) ==> {
            &&& exists|j: int| 0 <= j < n && scheduled_at(#[trigger] states[j], t)
            &&& forall|j: int| 0 <= j < n
                ==> ((#[trigger] states[j]) matches ConnectionInfo::WillSend(w, _) ==> w >= t)
        },
        wake_upto(states, n) is None
            ==> forall|j: int| 0 <= j < n ==> (#[trigger] states[j]) is Waiting,
    decreases n,
{
    if n > 0 {
        lemma_wake_upto(states, n - 1);
    }
}

/// A sequence extended past `n` has the same earliest scheduled time
/// among its first `n` states.
pub proof fn lemma_wake_upto_push(states: Seq<ConnectionInfo>, x: ConnectionInfo, n: int)
    requires
        0 <= n <= states.len(),
    ensures
        wake_upto(states.push(x), n) == wake_upto(states, n),
    decreases n,
{
    if n > 0 {
        lemma_wake_upto_push(states, x, n - 1);
    }
}

/// The reference machine: increments and bounces a number on each of
/// its connections.
pub struct IncMachine {
    /// This machine's identity.
    pub id: MachineId,
    /// The connections, each with its per-connection state.
    pub connections: Vec<(Channel, ConnectionInfo)>,
    /// The largest time this machine has observed.
    pub last: Ghost<Time>,
}

impl IncMachine {
    /// The number of connections.
    pub open spec fn n_conns(&self) -> int {
        self.connections@.len() as int
    }

    /// The channel of connection `i`.
    pub open spec fn chan(&self, i: int) -> Channel {
        self.connections@[i].0
    }

    /// The state of connection `i`.
    pub open spec fn state(&self, i: int) -> ConnectionInfo {
        self.connections@[i].1
    }

    /// The per-connection states, in connection order.
    pub open spec fn states(&self) -> Seq<ConnectionInfo> {
        self.connections@.map_values(|c: (Channel, ConnectionInfo)| c.1)
    }

    /// No two connections share an endpoint buffer, and no connection
    /// sends into its own inbox.
    pub open spec fn bufs_disjoint(&self) -> bool {
        forall|i: int, j: int|
            0 <= i < self.n_conns() && 0 <= j < self.n_conns() ==> {
                &&& (#[trigger] self.chan(i)).outbox != (#[trigger] self.chan(j)).inbox
                &&& (i != j ==> self.chan(i).outbox != self.chan(j).outbox && self.chan(i).inbox
                    != self.chan(j).inbox)
            }
    }

    /// Is `b` an endpoint buffer of one of the first `upto` connections?
    pub open spec fn touches(&self, upto: int, b: int) -> bool {
        exists|i: int|
            0 <= i < upto && ((#[trigger] self.chan(i)).outbox == b || self.chan(i).inbox == b)
    }

    /// The state of connection `j`, for diagnostics and tests.
    pub fn state_of(&self, j: usize) -> (r: ConnectionInfo)
        requires
            j < self.n_conns(),
        ensures
            r == self.state(j as int),
    {
        self.connections[j].1
    }

    /// The number of connections.
    pub fn num_connections(&self) -> (r: usize)
        ensures
            r == self.n_conns(),
    {
        self.connections.len()
    }
}

impl Machine for IncMachine {
    open spec fn wf(&self) -> bool {
        self.bufs_disjoint()
    }

    open spec fn last_time(&self) -> Time {
        self.last@
    }

    open spec fn next_wake(&self) -> Option<Time> {
        wake_upto(self.states(), self.n_conns())
    }

    open spec fn bufs_used(&self) -> Set<int> {
        Set::new(
            |b: int|
                exists|i: int|
                    0 <= i < self.n_conns() && ((#[trigger] self.chan(i)).outbox == b || self.chan(
                        i,
                    ).inbox == b),
        )
    }

    /// A poll fails exactly when some waiting connection's newly
    /// computed send time would not fit in `Time`.
    open spec fn poll_fault(&self, time: Time, net: Seq<Seq<u8>>) -> Option<Fault> {
        if exists|i: int|
            0 <= i < self.n_conns() && conn_faults(
                (#[trigger] self.state(i)),
                time,
                net[self.chan(i).inbox as int],
            ) {
            Some(Fault::TimeOverflow)
        } else {
            None
        }
    }

    fn start(id: MachineId) -> (m: Self)
        ensures
            m.id == id,
            m.n_conns() == 0,
    {
        let m = IncMachine { id, connections: Vec::new(), last: Ghost(0) };
        proof {
            assert(m.bufs_used() =~= Set::<int>::empty());
            assert(m.states().len() == 0);
        }
        m
    }

    /// The new connection is seeded by the tie-break: the side with the
    /// lower identity will send `1` one tick from now, the other waits.
    fn add_connection(&mut self, channel: Channel, time: Time)
        ensures
            final(self).id == old(self).id,
            final(self).connections@ == old(self).connections@.push(
                (channel, seeded(channel, time)),
            ),
    {
        let ci = if channel.self_id() < channel.peer_id() {
            ConnectionInfo::WillSend(time + 1, 1)
        } else {
            ConnectionInfo::Waiting
        };
        self.connections.push((channel, ci));
        self.last = Ghost(time);
        proof {
            let n = old(self).n_conns();
            assert(self.chan(n) == channel);
            assert forall|i: int| 0 <= i < n implies (#[trigger] self.chan(i)) == old(self).chan(
                i,
            ) by {}
            // the fresh buffers are distinct from every buffer already
            // in use, so disjointness is preserved
            assert forall|i: int| 0 <= i < n implies old(self).bufs_used().contains(
                (#[trigger] old(self).chan(i)).outbox as int,
            ) && old(self).bufs_used().contains(old(self).chan(i).inbox as int) by {}
            assert(self.wf());
            assert(self.bufs_used() =~= old(self).bufs_used().insert(
                channel.outbox as int,
            ).insert(channel.inbox as int)) by {
                assert forall|b: int| old(self).bufs_used().contains(b) implies self.bufs_used()
                    .contains(b) by {
                    let i = choose|i: int|
                        0 <= i < n && ((#[trigger] old(self).chan(i)).outbox == b || old(
                            self,
                        ).chan(i).inbox == b);
                    assert(self.chan(i) == old(self).chan(i));
                }
            }
            // the earliest wake time only moves by the seeded entry
            assert(self.states() =~= old(self).states().push(seeded(channel, time)));
            lemma_wake_upto_push(old(self).states(), seeded(channel, time), n);
            lemma_wake_upto(old(self).states(), n);
        }
    }

    /// Evaluates the transition rules once per connection, in
    /// connection order: a ripe scheduled send transmits its byte and
    /// resets to waiting; a waiting connection drains its inbox and, if
    /// a byte arrived, schedules the incremented value.
    #[verifier::loop_isolation(false)]
    #[verifier::rlimit(100)]
    fn poll(&mut self, time: Time, net: &mut Network) -> (r: Result<(), Fault>)
        ensures
            final(self).id == old(self).id,
            final(self).connections@.len() == old(self).connections@.len(),
            forall|i: int|
                0 <= i < old(self).n_conns() ==> (#[trigger] final(self).chan(i)) == old(
                    self,
                ).chan(i),
            r is Err <==> exists|i: int|
                0 <= i < old(self).n_conns() && conn_faults(
                    (#[trigger] old(self).state(i)),
                    time,
                    old(net)@[old(self).chan(i).inbox as int],
                ),
            r matches Err(f) ==> f == Fault::TimeOverflow,
            r is Ok ==> forall|i: int|
                0 <= i < old(self).n_conns() ==> (#[trigger] final(self).state(i)) == conn_after(
                    old(self).state(i),
                    time,
                    old(net)@[old(self).chan(i).inbox as int],
                ),
            r is Ok ==> forall|i: int|
                0 <= i < old(self).n_conns() ==> final(net)@[(#[trigger] old(self).chan(
                    i,
                )).outbox as int] == old(net)@[old(self).chan(i).outbox as int] + sent_bytes(
                    old(self).state(i),
                    time,
                ),
            r is Ok ==> forall|i: int|
                0 <= i < old(self).n_conns() ==> final(net)@[(#[trigger] old(self).chan(
                    i,
                )).inbox as int] == inbox_after(
                    old(self).state(i),
                    old(net)@[old(self).chan(i).inbox as int],
                ),
    {
        self.last = Ghost(time);
        let n = self.connections.len();
        let mut j: usize = 0;
        while j < n
            invariant
                j <= n,
                self.id == old(self).id,
                self.last@ == time,
                self.connections@.len() == old(self).connections@.len(),
                forall|i: int|
                    0 <= i < old(self).n_conns() ==> (#[trigger] self.chan(i)) == old(self).chan(
                        i,
                    ),
                forall|i: int|
                    j <= i < old(self).n_conns() ==> (#[trigger] self.state(i)) == old(
                        self,
                    ).state(i),
                forall|i: int|
                    0 <= i < j ==> (#[trigger] self.state(i)) == conn_after(
                        old(self).state(i),
                        time,
                        old(net)@[old(self).chan(i).inbox as int],
                    ),
                forall|i: int|
                    0 <= i < j ==> !conn_faults(
                        (#[trigger] old(self).state(i)),
                        time,
                        old(net)@[old(self).chan(i).inbox as int],
                    ),
                net@.len() == old(net)@.len(),
                forall|i: int|
                    0 <= i < j ==> net@[(#[trigger] old(self).chan(i)).outbox as int] == old(
                        net,
                    )@[old(self).chan(i).outbox as int] + sent_bytes(old(self).state(i), time),
                forall|i: int|
                    0 <= i < j ==> net@[(#[trigger] old(self).chan(i)).inbox as int]
                        == inbox_after(
                        old(self).state(i),
                        old(net)@[old(self).chan(i).inbox as int],
                    ),
                forall|b: int|
                    0 <= b < net@.len() && !old(self).touches(j as int, b) ==> net@[b] == old(
                        net,
                    )@[b],
            decreases n - j,
        {
            let chan = self.connections[j].0;
            let state = self.connections[j].1;
            proof {
                let jj = j as int;
                assert(self.chan(jj) == chan);
                assert(self.state(jj) == state);
                assert(old(self).chan(jj) == chan);
                assert(old(self).state(jj) == state);
                assert(old(self).bufs_used().contains(chan.outbox as int)) by {
                    assert(0 <= jj < old(self).n_conns() && (old(self).chan(jj).outbox
                        == chan.outbox as int || old(self).chan(jj).inbox == chan.outbox as int));
                }
                assert(old(self).bufs_used().contains(chan.inbox as int)) by {
                    assert(0 <= jj < old(self).n_conns() && (old(self).chan(jj).outbox
                        == chan.inbox as int || old(self).chan(jj).inbox == chan.inbox as int));
                }
                assert(!old(self).touches(j as int, chan.outbox as int));
                assert(!old(self).touches(j as int, chan.inbox as int));
            }
            match state {
                ConnectionInfo::WillSend(when, num) => {
                    if time >= when {
                        let mut msg: Vec<u8> = Vec::new();
                        msg.push(num);
                        let ghost pre_net = net@;
                        chan.send(net, &msg);
                        proof {
                            assert(net@ == pre_net.update(
                                chan.outbox as int,
                                pre_net[chan.outbox as int] + msg@,
                            ));
                        }
                        let ghost pre_conns = self.connections@;
                        proof {
                            assert forall|i: int| 0 <= i < pre_conns.len() implies (
                            #[trigger] pre_conns[i]).0 == old(self).chan(i) by {
                                assert(pre_conns[i].0 == self.chan(i));
                            }
                            assert forall|i: int|
                                j as int <= i < pre_conns.len() implies (
                            #[trigger] pre_conns[i]).1 == old(self).state(i) by {
                                assert(pre_conns[i].1 == self.state(i));
                            }
                            assert forall|i: int| 0 <= i < j as int implies (
                            #[trigger] pre_conns[i]).1 == conn_after(
                                old(self).state(i),
                                time,
                                old(net)@[old(self).chan(i).inbox as int],
                            ) by {
                                assert(pre_conns[i].1 == self.state(i));
                            }
                        }
                        self.connections[j] = (chan, ConnectionInfo::Waiting);
                        proof {
                            lemma_conns_update(*old(self), pre_conns, *self, j as int);
                            assert forall|i: int| 0 <= i < j as int implies net@[(
                            #[trigger] old(self).chan(i)).outbox as int] == pre_net[old(self).chan(
                                i,
                            ).outbox as int] && net@[old(self).chan(i).inbox as int] == pre_net[old(
                                self,
                            ).chan(i).inbox as int] by {
                                assert(old(self).bufs_used().contains(
                                    old(self).chan(i).outbox as int,
                                ));
                                assert(old(self).bufs_used().contains(
                                    old(self).chan(i).inbox as int,
                                ));
                                assert(old(self).chan(i).outbox != old(self).chan(
                                    j as int,
                                ).outbox);
                                assert(old(self).chan(i).inbox != old(self).chan(
                                    j as int,
                                ).outbox);
                            }
                            assert(msg@ =~= seq![num]);
                            assert(msg@ == sent_bytes(old(self).state(j as int), time));
                        }
                    }
                    proof {
                        assert(net@[old(self).chan(j as int).outbox as int] == old(net)@[old(
                            self,
                        ).chan(j as int).outbox as int] + sent_bytes(
                            old(self).state(j as int),
                            time,
                        )) by {
                            if time < when {
                                assert(old(net)@[old(self).chan(j as int).outbox as int]
                                    + Seq::<u8>::empty() =~= old(net)@[old(self).chan(
                                    j as int,
                                ).outbox as int]);
                            }
                        }
                    }
                }
                ConnectionInfo::Waiting => {
                    let ghost pre_net = net@;
                    let bytes = chan.recv(net);
                    proof {
                        assert forall|i: int| 0 <= i < j as int implies net@[(
                        #[trigger] old(self).chan(i)).outbox as int] == pre_net[old(self).chan(
                            i,
                        ).outbox as int] && net@[old(self).chan(i).inbox as int] == pre_net[old(
                            self,
                        ).chan(i).inbox as int] by {
                            assert(old(self).bufs_used().contains(
                                old(self).chan(i).outbox as int,
                            ));
                            assert(old(self).bufs_used().contains(
                                old(self).chan(i).inbox as int,
                            ));
                            assert(old(self).chan(i).outbox != old(self).chan(j as int).inbox);
                            assert(old(self).chan(i).inbox != old(self).chan(j as int).inbox);
                        }
                        assert(net@[old(self).chan(j as int).inbox as int]
                            == Seq::<u8>::empty());
                    }
                    if bytes.len() > 0 {
                        let num = bytes[0];
                        let new_num = num.saturating_add(1);
                        let new_time = match time.checked_add(new_num as u64) {
                            Some(t) => t,
                            None => {
                                proof {
                                    lemma_poll_wake_bound(
                                        *old(self),
                                        *self,
                                        old(net)@,
                                        time,
                                        j as int,
                                    );
                                    lemma_same_chans_same_bufs(*old(self), *self);
                                }
                                return Err(Fault::TimeOverflow);
                            }
                        };
                        let ghost pre_conns = self.connections@;
                        proof {
                            assert forall|i: int| 0 <= i < pre_conns.len() implies (
                            #[trigger] pre_conns[i]).0 == old(self).chan(i) by {
                                assert(pre_conns[i].0 == self.chan(i));
                            }
                            assert forall|i: int|
                                j as int <= i < pre_conns.len() implies (
                            #[trigger] pre_conns[i]).1 == old(self).state(i) by {
                                assert(pre_conns[i].1 == self.state(i));
                            }
                            assert forall|i: int| 0 <= i < j as int implies (
                            #[trigger] pre_conns[i]).1 == conn_after(
                                old(self).state(i),
                                time,
                                old(net)@[old(self).chan(i).inbox as int],
                            ) by {
                                assert(pre_conns[i].1 == self.state(i));
                            }
                        }
                        self.connections[j] = (
                            chan,
                            ConnectionInfo::WillSend(new_time, new_num),
                        );
                        proof {
                            lemma_conns_update(*old(self), pre_conns, *self, j as int);
                        }
                    }
                    proof {
                        assert(net@[old(self).chan(j as int).outbox as int] == old(net)@[old(
                            self,
                        ).chan(j as int).outbox as int] + sent_bytes(
                            old(self).state(j as int),
                            time,
                        )) by {
                            assert(old(net)@[old(self).chan(j as int).outbox as int]
                                + Seq::<u8>::empty() =~= old(net)@[old(self).chan(
                                j as int,
                            ).outbox as int]);
                        }
                    }
                }
            }
            j = j + 1;
        }
        proof {
            lemma_poll_wake_bound(*old(self), *self, old(net)@, time, n as int);
            lemma_same_chans_same_bufs(*old(self), *self);
        }
        Ok(())
    }

    fn poll_at(&self) -> (r: Option<Time>)
        ensures
            r == self.next_wake(),
    {
        let mut min: Option<Time> = None;
        let mut i: usize = 0;
        while i < self.connections.len()
            invariant
                i <= self.n_conns(),
                min == wake_upto(self.states(), i as int),
            decreases self.n_conns() - i,
        {
            proof {
                assert(self.states()[i as int] == self.state(i as int));
            }
            match self.connections[i].1 {
                ConnectionInfo::WillSend(when, _num) => {
                    min = match min {
                        Some(t) => if when < t {
                            Some(when)
                        } else {
                            Some(t)
                        },
                        None => Some(when),
                    };
                }
                ConnectionInfo::Waiting => {}
            }
            i = i + 1;
        }
        min
    }
}

/// Updating one connection's state leaves every channel, and every
/// other connection's state, as it was.
proof fn lemma_conns_update(
    m0: IncMachine,
    pre: Seq<(Channel, ConnectionInfo)>,
    m1: IncMachine,
    jj: int,
)
    requires
        0 <= jj < pre.len(),
        m1.connections@ == pre.update(jj, (pre[jj].0, m1.connections@[jj].1)),
        pre.len() == m0.connections@.len(),
        forall|i: int| 0 <= i < pre.len() ==> (#[trigger] pre[i]).0 == m0.chan(i),
    ensures
        m1.n_conns() == m0.n_conns(),
        forall|i: int| 0 <= i < m0.n_conns() ==> (#[trigger] m1.chan(i)) == m0.chan(i),
        forall|i: int| 0 <= i < m0.n_conns() && i != jj ==> (#[trigger] m1.state(i)) == pre[i].1,
{
    assert forall|i: int| 0 <= i < m0.n_conns() implies (#[trigger] m1.chan(i)) == m0.chan(i) by {
        if i != jj {
            assert(m1.connections@[i] == pre[i]);
        }
    }
    assert forall|i: int|
        0 <= i < m0.n_conns() && i != jj implies (#[trigger] m1.state(i)) == pre[i].1 by {
        assert(m1.connections@[i] == pre[i]);
    }
}

/// Two machine values with the same channels use the same buffers.
proof fn lemma_same_chans_same_bufs(m0: IncMachine, m1: IncMachine)
    requires
        m1.n_conns() == m0.n_conns(),
        forall|i: int| 0 <= i < m0.n_conns() ==> (#[trigger] m1.chan(i)) == m0.chan(i),
    ensures
        m1.bufs_used() == m0.bufs_used(),
{
    assert(m1.bufs_used() =~= m0.bufs_used()) by {
        assert forall|b: int| m1.bufs_used().contains(b) implies m0.bufs_used().contains(b) by {
            let i = choose|i: int|
                0 <= i < m1.n_conns() && ((#[trigger] m1.chan(i)).outbox == b || m1.chan(i).inbox
                    == b);
            assert(m0.chan(i) == m1.chan(i));
            assert(0 <= i < m0.n_conns() && (m0.chan(i).outbox == b || m0.chan(i).inbox == b));
        }
        assert forall|b: int| m0.bufs_used().contains(b) implies m1.bufs_used().contains(b) by {
            let i = choose|i: int|
                0 <= i < m0.n_conns() && ((#[trigger] m0.chan(i)).outbox == b || m0.chan(i).inbox
                    == b);
            assert(m1.chan(i) == m0.chan(i));
            assert(0 <= i < m1.n_conns() && (m1.chan(i).outbox == b || m1.chan(i).inbox == b));
        }
    }
}

/// After some prefix of the connections has taken its transition at
/// `time` and the rest is untouched, the machine never asks to be woken
/// before `time`, except for a send that was already scheduled.
proof fn lemma_poll_wake_bound(
    m0: IncMachine,
    m1: IncMachine,
    net0: Seq<Seq<u8>>,
    time: Time,
    done: int,
)
    requires
        0 <= done <= m0.n_conns(),
        m1.n_conns() == m0.n_conns(),
        forall|i: int| 0 <= i < m0.n_conns() ==> (#[trigger] m1.chan(i)) == m0.chan(i),
        forall|i: int|
            0 <= i < done ==> (#[trigger] m1.state(i)) == conn_after(
                m0.state(i),
                time,
                net0[m0.chan(i).inbox as int],
            ),
        forall|i: int|
            0 <= i < done ==> !conn_faults(
                (#[trigger] m0.state(i)),
                time,
                net0[m0.chan(i).inbox as int],
            ),
        forall|i: int| done <= i < m0.n_conns() ==> (#[trigger] m1.state(i)) == m0.state(i),
    ensures
        m1.next_wake() matches Some(t) ==> (t >= time || (m0.next_wake() matches Some(t0) && t
            >= t0)),
{
    let n = m0.n_conns();
    lemma_wake_upto(m1.states(), n);
    lemma_wake_upto(m0.states(), n);
    match m1.next_wake() {
        Some(t) => {
            let j = choose|j: int| 0 <= j < n && scheduled_at(m1.states()[j], t);
            assert(m1.states()[j] == m1.state(j));
            assert(m0.states()[j] == m0.state(j));
            if j < done {
                // this connection took its transition at `time`
                match m0.state(j) {
                    ConnectionInfo::WillSend(w, _) => {
                        // an unfired send keeps its original schedule
                        assert(t == w);
                    }
                    ConnectionInfo::Waiting => {
                        // a fresh schedule lies at least one tick ahead
                        assert(t >= time);
                    }
                }
            }
        }
        None => {}
    }
}

/// One bounce of the increment protocol, receiving side: a waiting
/// connection that finds the single byte `v` in its inbox at time `t`
/// schedules `v + 1` to be sent at `t + (v + 1)` — each bounce
/// increments the value by exactly one, and the interval until the
/// send equals the value about to be sent.
pub proof fn lemma_bounce_schedules_increment(v: u8, t: Time)
    requires
        v < 255,
        t + v + 1 <= u64::MAX,
    ensures
        conn_after(ConnectionInfo::Waiting, t, seq![v]) == ConnectionInfo::WillSend(
            (t + v + 1) as Time,
            (v + 1) as u8,
        ),
        !conn_faults(ConnectionInfo::Waiting, t, seq![v]),
{
}

/// One bounce of the increment protocol, sending side: the scheduled
/// byte is transmitted unchanged the moment its time arrives — and not
/// before — after which the connection waits again.
pub proof fn lemma_bounce_fires(when: Time, v: u8, t2: Time, inbox: Seq<u8>)
    ensures
        t2 >= when ==> sent_bytes(ConnectionInfo::WillSend(when, v), t2) == seq![v],
        t2 >= when ==> conn_after(ConnectionInfo::WillSend(when, v), t2, inbox)
            == ConnectionInfo::Waiting,
        t2 < when ==> sent_bytes(ConnectionInfo::WillSend(when, v), t2) == Seq::<u8>::empty(),
        t2 < when ==> conn_after(ConnectionInfo::WillSend(when, v), t2, inbox)
            == ConnectionInfo::WillSend(when, v),
{
}

} // verus!
