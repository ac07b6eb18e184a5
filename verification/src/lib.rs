//! Silence-aware segmentation and timestamp-continuous remux logic.
//!
//! The library holds the decision logic of a silence-cutting media editor:
//! loudness bookkeeping over decoded audio samples, detection and merging of
//! noisy intervals, keyframe-aligned cut planning, and the per-stream
//! timestamp renumbering that keeps a joined output monotonic. Container
//! I/O, decoding and muxing live outside the library and hand it plain
//! values.

pub mod classify;
pub mod cut;
pub mod detect;
pub mod error;
pub mod interval;
pub mod join;
pub mod pipeline;
pub mod timestamp;
