//! The datagram path: the one trust boundary of the crate.
//!
//! The transport moves whole datagrams through a pair of unbounded
//! channel endpoints. Nothing in the protocol's correctness argument
//! depends on what the wire does with a datagram — it may hold it forever,
//! and what comes out of the inbound side is arbitrary bytes — so the
//! wrappers below promise almost nothing, and every caller is verified
//! against every possible outcome.

use vstd::prelude::*;

verus! {

/// The outbound endpoint type of crossbeam_channel, declared opaque.
#[verifier::external_type_specification]
#[verifier::external_body]
#[verifier::reject_recursive_types(T)]
pub struct ExSender<T>(crossbeam::channel::Sender<T>);

/// The inbound endpoint type of crossbeam_channel, declared opaque.
#[verifier::external_type_specification]
#[verifier::external_body]
#[verifier::reject_recursive_types(T)]
pub struct ExReceiver<T>(crossbeam::channel::Receiver<T>);

/// Relies on crossbeam_channel::unbounded: a fresh connected pair of
/// endpoints. Nothing is claimed about delivery.
#[verifier::external_body]
pub fn wire_pair() -> (crossbeam::channel::Sender<Vec<u8>>, crossbeam::channel::Receiver<Vec<u8>>)
{
    crossbeam::channel::unbounded()
}

/// Relies on crossbeam_channel::Sender::send: hands one datagram to the
/// wire; `false` exactly on a closed channel. Nothing is claimed about
/// delivery, so callers must stay correct even if the datagram vanishes.
#[verifier::external_body]
pub fn wire_send(tx: &crossbeam::channel::Sender<Vec<u8>>, datagram: Vec<u8>) -> (ok: bool) {
    tx.send(datagram).is_ok()
}

/// Relies on crossbeam_channel::Receiver::try_recv: one non-blocking
/// poll. `None` when nothing is ready or the channel is closed; the
/// bytes of a `Some` are arbitrary as far as verification is concerned.
#[verifier::external_body]
pub fn wire_try_recv(rx: &crossbeam::channel::Receiver<Vec<u8>>) -> (r: Option<Vec<u8>>) {
    rx.try_recv().ok()
}

/// Relies on crossbeam_channel::Receiver::recv: blocks until a datagram
/// arrives; `None` only when the channel is empty and closed.
#[verifier::external_body]
pub fn wire_recv(rx: &crossbeam::channel::Receiver<Vec<u8>>) -> (r: Option<Vec<u8>>) {
    rx.recv().ok()
}

/// Relies on crossbeam_channel::Receiver::recv_timeout: blocks for at
/// most `millis` milliseconds; doubles as the poll-interval sleep of the
/// session's drive loop. `None` on timeout or a closed channel.
#[verifier::external_body]
pub fn wire_recv_timeout(rx: &crossbeam::channel::Receiver<Vec<u8>>, millis: u64) -> (r: Option<
    Vec<u8>,
>) {
    rx.recv_timeout(std::time::Duration::from_millis(millis)).ok()
}

} // verus!
