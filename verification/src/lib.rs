//! Collapse "perf script" stack samples into folded-stack lines.
//!
//! The library consumes the textual per-event stack dump that a sampling
//! profiler emits (one header line, stack-frame lines, a blank line per
//! event), normalizes each frame's function name, and counts how often each
//! (process label, ordered frame list) combination occurs.  The caller is
//! expected to feed it raw input lines and print the resulting folded lines.

pub mod bytes;
pub mod frame;
pub mod laws;
pub mod model;
pub mod parse;
pub mod state;
