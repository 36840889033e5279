//! The frame distribution channel: a single-slot, latest-wins mailbox
//! between the capture side and the consumer.
//!
//! The channel holds at most one pending frame. A send while a frame
//! is pending replaces it instead of queueing, so the producer never
//! blocks and the consumer only ever sees the most recent frame. Once
//! the consumer has closed the channel, a send is refused, which the
//! producer task takes as its signal to terminate.

use vstd::prelude::*;

use crate::record::Screenshot;

verus! {

/// What became of a sent frame.
pub enum SendOutcome {
    /// The slot was empty; the frame is now pending.
    Delivered,
    /// An unconsumed frame was pending; it was dropped and replaced by
    /// the new one.
    Replaced,
    /// The consumer has closed the channel; the frame was discarded.
    Closed,
}

/// The single-slot mailbox. At most one frame is ever pending, by
/// construction: the slot is an `Option`.
pub struct DistributionChannel {
    slot: Option<Screenshot>,
    closed: bool,
}

impl DistributionChannel {
    /// The pending frame, if any.
    pub closed spec fn pending(&self) -> Option<Screenshot> {
        self.slot
    }

    /// Whether the consumer has shut the channel down.
    pub closed spec fn is_closed(&self) -> bool {
        self.closed
    }

    /// A fresh, open, empty channel.
    pub fn new() -> (chan: DistributionChannel)
        ensures
            chan.pending() is None,
            !chan.is_closed(),
    {
        DistributionChannel { slot: None, closed: false }
    }

    /// Publishes a frame. Never blocks: a pending frame is replaced
    /// (latest wins), and a closed channel refuses the frame and stays
    /// exactly as it was.
    pub fn send(&mut self, frame: Screenshot) -> (outcome: SendOutcome)
        ensures
            old(self).is_closed() ==> outcome is Closed && *final(self) == *old(self),
            !old(self).is_closed() ==> {
                &&& final(self).pending() == Some(frame)
                &&& !final(self).is_closed()
                &&& outcome is Delivered <==> old(self).pending() is None
                &&& outcome is Replaced <==> old(self).pending() is Some
            },
    {
        if self.closed {
            SendOutcome::Closed
        } else {
            let had_pending = self.slot.is_some();
            self.slot = Some(frame);
            if had_pending {
                SendOutcome::Replaced
            } else {
                SendOutcome::Delivered
            }
        }
    }

    /// The consumer's non-blocking receive: takes the pending frame,
    /// leaving the slot empty. Draining the channel before compositing
    /// is one call, because the slot never queues a second frame.
    pub fn try_recv(&mut self) -> (frame: Option<Screenshot>)
        ensures
            frame == old(self).pending(),
            final(self).pending() is None,
            final(self).is_closed() == old(self).is_closed(),
    {
        self.slot.take()
    }

    /// Consumer shutdown: refuses all later sends and drops a pending
    /// frame.
    pub fn close(&mut self)
        ensures
            final(self).is_closed(),
            final(self).pending() is None,
    {
        self.closed = true;
        self.slot = None;
    }
}

} // verus!
