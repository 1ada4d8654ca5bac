//! Process tree management: the decisions behind enumerating, signalling and
//! terminating a process together with its descendants.
//!
//! The operating-system work (opening pidfds, reading `/proc`, sending
//! signals, sleeping) is performed by the caller; this library parses what the
//! system reports and decides what to do next.

pub mod status;
pub mod text;
pub mod args;
pub mod tree;
pub mod wait;
pub mod terminate;
pub mod snapshot;
pub mod platform;
pub mod targets;
