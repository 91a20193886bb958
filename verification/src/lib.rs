//! A reliable, ordered, bidirectional byte stream layered on an unreliable
//! datagram transport, together with the pieces it is built from: a packet
//! codec, a fixed-size buffer pool, a sliding window, and the session layer
//! that fragments, retransmits, deduplicates and reassembles.
//!
//! The modules mirror the layering: `packet` is the wire element and its
//! codec, `pool` manages the in-flight buffers, `window` is the sender's
//! cursor over its packet plan, `transport` moves whole packets as datagrams,
//! and `session` is the reliability core. `laws` states and proves the
//! protocol-level properties that relate those layers.

pub mod bytes_buf;
pub mod error;
pub mod frame;
pub mod laws;
pub mod messages;
pub mod packet;
pub mod pool;
pub mod rpc;
pub mod session;
pub mod tcp_types;
pub mod transport;
pub mod window;
pub mod wire;

pub use window::SlidingWindow;
