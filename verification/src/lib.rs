//! Speaker resolution, fleet command planning, group topology, and the
//! persisted configuration record for a networked-speaker controller.
//!
//! The crate holds the decision logic only: name resolution, volume
//! clamping, join/leave planning over a discovered fleet, and the JSON
//! codec for the two-field configuration record. Network discovery and
//! file I/O live outside, and hand this library plain values.

pub mod config;
pub mod errors;
pub mod fleet;
pub mod json;
pub mod text;
