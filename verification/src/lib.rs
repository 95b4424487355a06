//! Epidemic (gossip-style) cluster membership core.
//!
//! A node joins a cluster of peers identified by 128-bit host keys reachable
//! over UDP and learns, with eventual consistency, which peers are alive,
//! suspected, down, or have voluntarily left.  The verified library holds the
//! membership reactor: the member table with its merge precedence, the
//! MTU-bounded wire codec, timeout-based failure suspicion, and dissemination
//! of state changes.  The thin I/O shell (sockets, threads, clocks) lives
//! outside the library and feeds it plain values.

pub mod codec;
pub mod config;
pub mod errors;
pub mod member;
pub mod membership;
pub mod state;
