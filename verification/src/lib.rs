//! A block-based signal-processing graph engine.
//!
//! The crate owns a mutable directed graph of processing nodes joined by
//! single-writer wires, evaluates it once per audio block with a depth-first
//! walk that detects cycles, and hands finished blocks to a real-time
//! consumer through a bounded queue. Graph storage keeps referential
//! integrity on every mutation; node handles are generational, so a key of a
//! removed node is detected as stale instead of aliasing a later node.

pub mod audio;
pub mod graph;
pub mod node;
pub mod pipeline;
pub mod sample;
