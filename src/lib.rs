//! A keyed operation multiplexer: at most one operation runs per key, operations
//! under one key run in the order they were pushed, and operations under
//! different keys run side by side.
//!
//! The multiplexer decides; it does not poll. A driver asks it which active
//! operation to poll next, polls that operation itself, and reports back when
//! one has finished.

pub mod laws;
pub mod model;
pub mod stream_map;

pub use model::{AdvanceStep, FarmIndex, MuxView};
pub use stream_map::{assert_is_terminated, FarmsAddRemoveStreamMap};
