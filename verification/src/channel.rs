//! Endpoint buffers and channels.
//!
//! All the byte queues that back connections live in one arena, the
//! [`Network`], owned by the engine.  A [`Channel`] is one side's view
//! of a connection: it holds the identities of the two participants and
//! the arena indices of its own outbox and inbox, never the buffers
//! themselves.  This keeps ownership single-sided: a channel never
//! touches its peer's memory, and only the engine moves bytes across.

use vstd::prelude::*;

use crate::MachineId;

verus! {

/// The arena of endpoint buffers.  Each buffer is a byte queue
/// exclusively owned by one directed link.
pub struct Network {
    /// The buffers, addressed by index.
    pub bufs: Vec<Vec<u8>>,
}

impl View for Network {
    type V = Seq<Seq<u8>>;

    open spec fn view(&self) -> Seq<Seq<u8>> {
        self.bufs@.map_values(|b: Vec<u8>| b@)
    }
}

impl Network {
    /// An arena with no buffers.
    pub fn new() -> (r: Network)
        ensures
            r@ == Seq::<Seq<u8>>::empty(),
    {
        let r = Network { bufs: Vec::new() };
        proof {
            assert(r@ =~= Seq::<Seq<u8>>::empty());
        }
        r
    }

    /// The number of buffers in the arena.
    pub fn len(&self) -> (r: usize)
        ensures
            r == self@.len(),
    {
        self.bufs.len()
    }

    /// Adds a fresh, empty buffer and returns its index.
    pub fn add_buf(&mut self) -> (r: usize)
        ensures
            r == old(self)@.len(),
            final(self)@ == old(self)@.push(Seq::<u8>::empty()),
    {
        let r = self.bufs.len();
        self.bufs.push(Vec::new());
        proof {
            assert(self@ =~= old(self)@.push(Seq::<u8>::empty()));
        }
        r
    }

    /// Appends a copy of `msg` to buffer `i`.
    #[verifier::loop_isolation(false)]
    pub fn append_bytes(&mut self, i: usize, msg: &Vec<u8>)
        requires
            i < old(self)@.len(),
        ensures
            final(self)@ == old(self)@.update(i as int, old(self)@[i as int] + msg@),
    {
        let ghost pre = self@;
        let mut j: usize = 0;
        while j < msg.len()
            invariant
                i < self@.len(),
                j <= msg@.len(),
                self@ == pre.update(i as int, pre[i as int] + msg@.take(j as int)),
            decreases msg@.len() - j,
        {
            let ghost mid = self@;
            let b = msg[j];
            self.bufs[i].push(b);
            proof {
                assert(self@ =~= mid.update(i as int, mid[i as int].push(b)));
                assert(msg@.take(j + 1) =~= msg@.take(j as int).push(b));
                assert(pre[i as int] + msg@.take(j + 1) =~= (pre[i as int] + msg@.take(
                    j as int,
                )).push(b));
                assert(self@ =~= pre.update(i as int, pre[i as int] + msg@.take(j + 1)));
            }
            j = j + 1;
        }
        proof {
            assert(msg@.take(msg@.len() as int) =~= msg@);
        }
    }

    /// Appends the whole of `bytes` to buffer `i`, consuming it.
    pub fn append_buf(&mut self, i: usize, bytes: Vec<u8>)
        requires
            i < old(self)@.len(),
        ensures
            final(self)@ == old(self)@.update(i as int, old(self)@[i as int] + bytes@),
    {
        let mut b = bytes;
        self.bufs[i].append(&mut b);
        proof {
            assert(self@ =~= old(self)@.update(i as int, old(self)@[i as int] + bytes@));
        }
    }

    /// Atomically drains buffer `i` and returns everything it held.
    pub fn take_buf(&mut self, i: usize) -> (r: Vec<u8>)
        requires
            i < old(self)@.len(),
        ensures
            r@ == old(self)@[i as int],
            final(self)@ == old(self)@.update(i as int, Seq::<u8>::empty()),
    {
        let r = crate::take_all(&mut self.bufs[i]);
        proof {
            assert(self@ =~= old(self)@.update(i as int, Seq::<u8>::empty()));
        }
        r
    }

    /// The number of bytes waiting in buffer `i`.
    pub fn buf_len(&self, i: usize) -> (r: usize)
        requires
            i < self@.len(),
        ensures
            r == self@[i as int].len(),
    {
        self.bufs[i].len()
    }
}

/// One side's view of a buffered, bidirectional byte link between two
/// machines.  A connection produces two of these, one per side; each
/// side's outbox is drained by the engine into the other side's inbox.
#[derive(Clone, Copy, Debug)]
pub struct Channel {
    /// The identity of the machine holding this side.
    pub self_id: MachineId,
    /// The identity of the machine on the other side.
    pub peer_id: MachineId,
    /// Arena index of the buffer this side sends into.
    pub outbox: usize,
    /// Arena index of the buffer this side receives from.
    pub inbox: usize,
}

impl Channel {
    /// Both buffer indices lie inside an arena of `n` buffers.
    pub open spec fn bufs_lt(&self, n: int) -> bool {
        self.outbox < n && self.inbox < n
    }

    /// The identity of the machine holding this side.
    pub fn self_id(&self) -> (r: MachineId)
        ensures
            r == self.self_id,
    {
        self.self_id
    }

    /// The identity of the machine on the other side.
    pub fn peer_id(&self) -> (r: MachineId)
        ensures
            r == self.peer_id,
    {
        self.peer_id
    }

    /// Appends a copy of `msg` to this side's outbox.  Always succeeds;
    /// delivery happens when the engine next moves buffered bytes.
    pub fn send(&self, net: &mut Network, msg: &Vec<u8>)
        requires
            self.outbox < old(net)@.len(),
        ensures
            final(net)@ == old(net)@.update(
                self.outbox as int,
                old(net)@[self.outbox as int] + msg@,
            ),
    {
        net.append_bytes(self.outbox, msg)
    }

    /// Atomically drains this side's inbox and returns all bytes
    /// currently in it; partial reads are not supported.
    pub fn recv(&self, net: &mut Network) -> (r: Vec<u8>)
        requires
            self.inbox < old(net)@.len(),
        ensures
            r@ == old(net)@[self.inbox as int],
            final(net)@ == old(net)@.update(self.inbox as int, Seq::<u8>::empty()),
    {
        net.take_buf(self.inbox)
    }
}

} // verus!
