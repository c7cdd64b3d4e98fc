//! Error values surfaced by the codec and by the offline handshake.
use vstd::prelude::*;

verus! {

/// A malformed datagram. The offending datagram is dropped; the peer is kept.
#[derive(Debug, Clone, Copy, PartialEq, Eq, Structural)]
pub enum CodecError {
    /// The leading byte (or a frame's reliability bits) names no known packet.
    InvalidPacketId(u8),
    /// The datagram ends before the fields it announces.
    InvalidPacketLength,
    /// A socket-address field starts with a version byte other than 4 or 6.
    InvalidIPVer(u8),
    /// An IPv6 socket-address field carries a family other than 0x17.
    InvalidIPV6Family(u16),
    /// The fixed magic sequence differs at this offset, with this byte found.
    MagicNotMatched(usize, u8),
}

/// A failed connection attempt, surfaced to the caller of the client side.
#[derive(Debug, Clone, Copy, PartialEq, Eq, Structural)]
pub enum HandshakeError {
    /// The server rejected the advertised protocol version and offered its own.
    IncompatibleProtocol { server_protocol: u8 },
    /// The server saw the address as already connected.
    AlreadyConnected,
    /// The server refused the connection outright.
    ConnectionRequestFailed,
}

} // verus!
