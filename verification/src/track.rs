//! Mirroring an external window: while the overlay shadows another
//! window, each poll of that window's rectangles yields the size and
//! position the overlay should adopt.

use vstd::prelude::*;

verus! {

/// A window rectangle in screen coordinates, as the platform reports
/// it: left/top inclusive, right/bottom exclusive.
pub struct Rect {
    pub left: i32,
    pub top: i32,
    pub right: i32,
    pub bottom: i32,
}

impl Rect {
    /// A rectangle that is not inside out.
    pub open spec fn wf(&self) -> bool {
        self.left <= self.right && self.top <= self.bottom
    }
}

/// The overlay's next size and position from one poll of the tracked
/// window: the client rectangle's extent, and the extended frame's
/// top-left corner nudged one pixel inward (the frame bound itself
/// sits one pixel outside the visible window).
pub fn track_metrics(client: &Rect, frame: &Rect) -> (r: (u32, u32, i32, i32))
    requires
        client.wf(),
        frame.left < i32::MAX,
        frame.top < i32::MAX,
    ensures
        r.0 == client.right - client.left,
        r.1 == client.bottom - client.top,
        r.2 == frame.left + 1,
        r.3 == frame.top + 1,
{
    let width = (client.right as i64 - client.left as i64) as u32;
    let height = (client.bottom as i64 - client.top as i64) as u32;
    (width, height, frame.left + 1, frame.top + 1)
}

} // verus!
