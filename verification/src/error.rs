//! Error values of the library.
//!
//! Protocol-level failures are values; invariant violations that the
//! verifier cannot rule out at a trust boundary are reported as `Internal`
//! or `Unknown` rather than by panicking: the verified functions of this
//! crate do not panic.

use vstd::prelude::*;

verus! {

/// Errors of the session and transport layers.
#[derive(Debug)]
pub enum Error {
    /// The bootstrap handshake with the remote end failed.
    Connect,
    /// Encoding or decoding of a packet or a user value failed.
    DecodeEncode(String),
    /// Decoding of an RPC response failed.
    DecodeResp,
    /// An internal invariant was violated, or the wire rejected an operation.
    Internal(String),
    /// A buffer id that was never handed out by the pool.
    Unknown(u64),
    /// The inbound path of the wire is closed.
    Receive,
    /// The retry budget of a blocking operation ran out without progress.
    Timeout,
}

/// Errors of a server front end built on the library.
#[derive(Debug)]
pub enum ServerError {
    /// No device is available to open the datagram path on.
    NoDevice,
    /// The named device does not exist.
    NoSuchDevice(String),
    /// The datagram fabric reported an error.
    Rdma(String),
    /// Binding the bootstrap listener failed.
    TcpBind(String),
}

/// Errors of a client front end built on the library.
#[derive(Debug)]
pub enum ClientError {
    /// No device is available to open the datagram path on.
    NoDevice,
    /// The named device does not exist.
    NoSuchDevice(String),
    /// The datagram fabric reported an error.
    Rdma(String),
    /// The bootstrap connection to the server failed.
    Connect(String),
    /// A session-layer error surfaced through the client.
    Internal(String),
}

} // verus!
