//! Change detection and the producer task's publish decision.
//!
//! A background task reads frames back in a loop. Before it signals
//! the consumer it compares the new frame's content against the last
//! one it saw: an unchanged screen produces no redraw work at all. A
//! changed frame is published to the distribution channel, and a
//! closed channel tells the task to terminate.

use vstd::prelude::*;

use crate::channel::{DistributionChannel, SendOutcome};
use crate::record::Screenshot;

verus! {

/// Whether a frame with content `content` counts as changed when the
/// detector last saw `last` (`None` before any frame: the first frame
/// always counts as changed).
pub open spec fn detect_signals(last: Option<Seq<u8>>, content: Seq<u8>) -> bool {
    last != Some(content)
}

/// The detector state after it has examined `content`.
pub open spec fn detect_after(last: Option<Seq<u8>>, content: Seq<u8>) -> Option<Seq<u8>> {
    Some(content)
}

/// Two consecutive frames with identical byte content never trigger
/// two redraw signals, and two consecutive frames that differ anywhere
/// always trigger one: after any frame `first`, a following frame
/// `second` signals exactly when its content differs from `first`.
pub proof fn lemma_consecutive_frames(last: Option<Seq<u8>>, first: Seq<u8>, second: Seq<u8>)
    ensures
        detect_signals(detect_after(last, first), second) <==> first != second,
{
}

/// The running change detector: remembers the content of the last
/// frame it examined.
pub struct ChangeDetector {
    last: Option<Vec<u8>>,
}

impl ChangeDetector {
    /// The content the detector last saw, if any.
    pub closed spec fn last(&self) -> Option<Seq<u8>> {
        match self.last {
            Some(v) => Some(v@),
            None => None,
        }
    }

    /// A fresh detector that has seen nothing; the first frame offered
    /// to it always signals.
    pub fn new() -> (det: ChangeDetector)
        ensures
            det.last() is None,
    {
        ChangeDetector { last: None }
    }

    /// Examines one frame's content. Returns whether it differs from
    /// the previous frame (a redraw signal) and remembers it for the
    /// next call.
    pub fn offer(&mut self, content: &Vec<u8>) -> (changed: bool)
        ensures
            changed == detect_signals(old(self).last(), content@),
            final(self).last() == detect_after(old(self).last(), content@),
    {
        let changed = match &self.last {
            Some(prev) => !bytes_equal(prev, content),
            None => true,
        };
        if changed {
            self.last = Some(copy_bytes(content));
        }
        proof {
            if !changed {
                assert(old(self).last() == Some(content@));
            }
        }
        changed
    }
}

/// Exact content comparison of two byte buffers.
fn bytes_equal(a: &Vec<u8>, b: &Vec<u8>) -> (eq: bool)
    ensures
        eq == (a@ == b@),
{
    if a.len() != b.len() {
        proof {
            assert(a@ != b@);
        }
        return false;
    }
    let n: usize = a.len();
    let mut i: usize = 0;
    while i < n
        invariant
            n == a@.len(),
            n == b@.len(),
            i <= n,
            forall|j: int| 0 <= j < i ==> a@[j] == b@[j],
        decreases n - i,
    {
        if a[i] != b[i] {
            return false;
        }
        i = i + 1;
    }
    proof {
        assert(a@ =~= b@);
    }
    true
}

/// A fresh buffer with the same content.
fn copy_bytes(src: &Vec<u8>) -> (copy: Vec<u8>)
    ensures
        copy@ == src@,
{
    let n: usize = src.len();
    let mut copy: Vec<u8> = Vec::new();
    let mut i: usize = 0;
    while i < n
        invariant
            n == src@.len(),
            i <= n,
            copy@ == src@.subrange(0, i as int),
        decreases n - i,
    {
        copy.push(src[i]);
        i = i + 1;
        proof {
            assert(copy@ =~= src@.subrange(0, i as int));
        }
    }
    proof {
        assert(src@.subrange(0, n as int) =~= src@);
    }
    copy
}

/// What the producer task does with one readback, and what the event
/// loop around it should do next.
pub enum PumpOutcome {
    /// The frame's content changed: it was published and the consumer
    /// should be woken to redraw.
    Published,
    /// The screen is static: nothing was sent, no redraw is needed.
    Unchanged,
    /// The consumer closed the channel: the producer task terminates,
    /// and this is normal shutdown, not an error.
    ChannelClosed,
}

/// One step of the producer task: examine a freshly read-back frame,
/// suppress it if the screen is static, otherwise publish it
/// (latest wins) unless the channel has been closed.
pub fn pump_frame(det: &mut ChangeDetector, chan: &mut DistributionChannel, frame: Screenshot) -> (outcome:
    PumpOutcome)
    ensures
        final(det).last() == detect_after(old(det).last(), frame.data@),
        !detect_signals(old(det).last(), frame.data@) ==> outcome is Unchanged && *final(chan)
            == *old(chan),
        detect_signals(old(det).last(), frame.data@) && old(chan).is_closed() ==> outcome
            is ChannelClosed && *final(chan) == *old(chan),
        detect_signals(old(det).last(), frame.data@) && !old(chan).is_closed() ==> outcome
            is Published && final(chan).pending() == Some(frame) && !final(chan).is_closed(),
{
    let changed = det.offer(&frame.data);
    if !changed {
        return PumpOutcome::Unchanged;
    }
    match chan.send(frame) {
        SendOutcome::Closed => PumpOutcome::ChannelClosed,
        SendOutcome::Delivered => PumpOutcome::Published,
        SendOutcome::Replaced => PumpOutcome::Published,
    }
}

} // verus!
