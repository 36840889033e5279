//! Verified core of a screen-capture overlay pipeline.
//!
//! Captured frames are packed out of pitch-padded staging memory
//! ([`record`]), admitted through a bounded in-flight counter
//! ([`gate`]), filtered for changed content ([`detect`]), handed to
//! the consumer through a single-slot latest-wins mailbox
//! ([`channel`]) and composited into a destination surface with a
//! luminance-adaptive invert effect and a small animated overlay
//! ([`render`]). The window-position cache line ([`cache`]),
//! environment toggles ([`config`]) and the tracked-window arithmetic
//! ([`track`]) round the pipeline out.
//!
//! Platform capture, windowing and presentation are collaborators that
//! feed plain values in and take plain values back out; they live
//! outside this crate.

pub mod cache;
pub mod channel;
pub mod config;
pub mod detect;
pub mod gate;
pub mod record;
pub mod render;
pub mod track;
