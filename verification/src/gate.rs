//! The in-flight gate: a bounded counter of captured-but-unconsumed
//! frames.
//!
//! The capture callback admits a new frame only while fewer than
//! [`IN_FLIGHT_CAP`] frames are outstanding; otherwise the source image
//! is discarded without copying, which applies back-pressure at the GPU
//! layer. The consumer releases one slot after it has read a frame
//! back.

use vstd::prelude::*;

verus! {

/// At most this many un-consumed frames may exist at once.
pub const IN_FLIGHT_CAP: u8 = 2;

/// One producer or consumer action on the in-flight counter; a whole
/// run of it is a sequence of these.
pub enum GateOp {
    /// The capture callback asks to admit one more frame.
    Admit,
    /// The consumer hands one frame slot back.
    Release,
}

/// How one action changes the counter. An admission is refused at the
/// cap, and a release of an empty gate leaves it empty (the running
/// code never performs one: [`InFlightGate::release`] requires a
/// positive count).
pub open spec fn gate_step(count: int, op: GateOp) -> int {
    match op {
        GateOp::Admit => if count < IN_FLIGHT_CAP { count + 1 } else { count },
        GateOp::Release => if count >= 1 { count - 1 } else { count },
    }
}

/// The counter after a whole history of actions, starting from empty.
pub open spec fn gate_run(ops: Seq<GateOp>) -> int
    decreases ops.len(),
{
    if ops.len() == 0 {
        0
    } else {
        gate_step(gate_run(ops.drop_last()), ops.last())
    }
}

/// Across any sequence of producer and consumer operations the counter
/// stays within `0 ..= IN_FLIGHT_CAP`: it never exceeds the cap and
/// never goes negative.
pub proof fn lemma_gate_bounded(ops: Seq<GateOp>)
    ensures
        0 <= gate_run(ops) <= IN_FLIGHT_CAP,
    decreases ops.len(),
{
    if ops.len() > 0 {
        lemma_gate_bounded(ops.drop_last());
    }
}

/// The in-flight gate itself. The counter is shared in practice between the
/// asynchronous capture callback and the consumer; each method here is
/// one critical section, executed under the surrounding lock.
pub struct InFlightGate {
    count: u8,
}

impl InFlightGate {
    /// The number of admitted, not yet released frames.
    pub closed spec fn count(&self) -> int {
        self.count as int
    }

    /// The invariant: the counter stays within the cap.
    pub open spec fn inv(&self) -> bool {
        0 <= self.count() <= IN_FLIGHT_CAP
    }

    /// A fresh gate with nothing in flight.
    pub fn new() -> (gate: InFlightGate)
        ensures
            gate.inv(),
            gate.count() == 0,
    {
        InFlightGate { count: 0 }
    }

    /// The capture callback's check-and-increment: admits the frame
    /// and counts it, unless the cap is already reached, in which case
    /// the frame is refused and the counter is unchanged.
    pub fn try_admit(&mut self) -> (admitted: bool)
        requires
            old(self).inv(),
        ensures
            final(self).inv(),
            admitted == (old(self).count() < IN_FLIGHT_CAP),
            final(self).count() == gate_step(old(self).count(), GateOp::Admit),
    {
        if self.count < IN_FLIGHT_CAP {
            self.count = self.count + 1;
            true
        } else {
            false
        }
    }

    /// The consumer's decrement, performed once per frame it has read
    /// back. Only called while something is in flight: every release
    /// follows the admission of the frame being consumed.
    pub fn release(&mut self)
        requires
            old(self).inv(),
            old(self).count() >= 1,
        ensures
            final(self).inv(),
            final(self).count() == old(self).count() - 1,
            final(self).count() == gate_step(old(self).count(), GateOp::Release),
    {
        self.count = self.count - 1;
    }

    /// The current counter value, for callers that must test it before
    /// releasing.
    pub fn in_flight(&self) -> (n: u8)
        ensures
            n == self.count(),
    {
        self.count
    }
}

} // verus!
