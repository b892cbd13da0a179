//! Errors that can occur while framing, decoding and sending ICMP packets.

use vstd::prelude::*;

verus! {

/// An error that can occur when handling ICMP packets.
///
/// Variants that correspond to a failed system call carry the message text of
/// the underlying I/O error.
#[derive(Debug, Clone)]
pub enum Error {
    /// Building the asynchronous file descriptor failed.
    AsyncFd(String),
    /// Creating the socket failed.
    Socket(String),
    /// Setting the socket non-blocking failed.
    SetNonblocking(String),
    /// Binding the socket failed.
    Bind(String),
    /// Sending a datagram failed.
    SendTo(String),
    /// Awaiting receive readiness failed.
    RecvFromReady(String),
    /// Receiving a datagram failed.
    RecvFrom(String),
    /// Setting the receive-error socket option failed.
    SetRecvErr(String),
    /// Setting the packet-info socket option failed.
    SetPacketInfo(String),
    /// A read asked for more initialized bytes than the buffer holds.
    BufferTooSmall { actual: usize, needed: usize },
    /// A delivered IP header did not carry the expected version.
    IpVersionMismatch { actual: u8, expected: u8 },
    /// A delivered IP header did not carry the expected protocol.
    ProtocolMismatch { actual: i32, expected: i32 },
    /// A received ICMP message came without a destination-address ancillary.
    RecvMissingDestinationAddress,
    /// An error-queue message came without an extended-error outcome.
    RecvErrorMissingOutcome,
}

} // verus!
