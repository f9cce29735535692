//! A discrete-event simulation kernel.
//!
//! Independent, time-aware entities ("machines") exchange byte-oriented
//! messages over point-to-point links, driven by a deterministic,
//! single-threaded event loop.  Nothing here touches real hardware or OS
//! networking: time is a virtual tick counter, and links are byte buffers
//! moved between the two sides by the kernel itself.

use vstd::prelude::*;

pub mod simulator;
pub mod channel;
pub mod engine;
pub mod inc_machine;
pub mod machine;
pub mod wire;

verus! {

/// Simulation time: a discrete, unsigned tick counter.
pub type Time = u64;

/// Stable identity of a registered machine, used as the index into the
/// machine registry and as the addressing unit for links and events.
pub type MachineId = usize;

/// A message: an opaque byte payload.
pub type Msg = Vec<u8>;

/// Messages paired with a machine identity: for incoming mail the sender,
/// for outgoing mail the destination.
pub type PollResult = Vec<(MachineId, Msg)>;

/// A fatal simulation failure.  The kernel never recovers from one of
/// these: the driver must stop stepping once a fault is reported.
#[derive(Clone, Copy, Debug, PartialEq, Eq, Structural)]
pub enum Fault {
    /// A computed wake or delivery time does not fit in `Time`.
    TimeOverflow,
    /// A link was handed a message from a machine that is neither of its
    /// two configured endpoints.
    UnknownSender,
    /// An outgoing message named a destination outside the registry.
    UnknownDestination,
}

/// Messages with their identities, with payloads abstracted to byte
/// sequences.
pub open spec fn mail_view(s: Seq<(MachineId, Msg)>) -> Seq<(MachineId, Seq<u8>)> {
    s.map_values(|m: (MachineId, Msg)| (m.0, m.1@))
}

/// Removes all values in the given vec, and puts them in the returned vec.
pub fn take_all<T>(v: &mut Vec<T>) -> (r: Vec<T>)
    ensures
        r@ == old(v)@,
        final(v)@ == Seq::<T>::empty(),
{
    let mut r: Vec<T> = Vec::new();
    core::mem::swap(&mut r, v);
    r
}

} // verus!
