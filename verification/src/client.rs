//! Client side of the offline handshake: the decisions from first request
//! to a connected peer or a fatal handshake error.
use vstd::prelude::*;

use crate::errors::HandshakeError;
use crate::packet::Addr;
use crate::server::Peer;
use crate::unconnected;

verus! {

/// Client handshake configuration.
#[derive(Debug, Clone)]
pub struct Config {
    pub send_buf_cap: usize,
    pub mtu: u16,
    pub client_guid: u64,
    pub protocol_version: u8,
}

impl Config {
    pub fn new() -> (r: Config)
        ensures
            r.send_buf_cap == 1024,
            r.mtu == 1400,
            r.client_guid == 0,
            r.protocol_version == 11,
    {
        Config { send_buf_cap: 1024, mtu: 1400, client_guid: 0, protocol_version: 11 }
    }

    pub fn send_buf_cap(self, v: usize) -> (r: Config)
        ensures
            r == (Config { send_buf_cap: v, ..self }),
    {
        Config { send_buf_cap: v, ..self }
    }

    pub fn mtu(self, v: u16) -> (r: Config)
        ensures
            r == (Config { mtu: v, ..self }),
    {
        Config { mtu: v, ..self }
    }

    pub fn client_guid(self, v: u64) -> (r: Config)
        ensures
            r == (Config { client_guid: v, ..self }),
    {
        Config { client_guid: v, ..self }
    }

    pub fn protocol_version(self, v: u8) -> (r: Config)
        ensures
            r == (Config { protocol_version: v, ..self }),
    {
        Config { protocol_version: v, ..self }
    }
}

/// Where the client's handshake stands.
#[derive(Debug, Clone, Copy, PartialEq, Eq, Structural)]
pub enum ClientState {
    /// First request sent, waiting for the server's MTU offer.
    WaitingReply1,
    /// Second request sent, echoing the server's offered MTU.
    WaitingReply2 { mtu: u16 },
    /// Handshake done: the connected-phase pipeline may start.
    Connected { peer: Peer },
    /// The attempt failed; the error is surfaced to the caller.
    Failed { err: HandshakeError },
}

/// The opening request of a connection attempt.
pub fn request1(config: &Config) -> (r: unconnected::Packet)
    ensures
        r@ == (unconnected::PacketView::OpenConnectionRequest1 {
            protocol_version: config.protocol_version,
            mtu: config.mtu,
        }),
{
    unconnected::Packet::OpenConnectionRequest1 {
        protocol_version: config.protocol_version,
        mtu: config.mtu,
    }
}

/// Advance the client handshake on one unconnected packet from the server:
/// the MTU the server offers is echoed back in the second request; the
/// second reply yields the peer; a handshake rejection is fatal for the
/// attempt; anything else is ignored.
pub fn client_step(
    config: &Config,
    state: ClientState,
    packet: &unconnected::Packet,
    server_addr: Addr,
) -> (r: (ClientState, Option<unconnected::Packet>))
    ensures
        ({
            match packet@ {
                unconnected::PacketView::OpenConnectionReply1 { mtu, .. } => if state
                    is WaitingReply1 {
                    r.0 == (ClientState::WaitingReply2 { mtu }) && (r.1 matches Some(p)
                        && p@ == (unconnected::PacketView::OpenConnectionRequest2 {
                        server_address: server_addr,
                        mtu,
                        client_guid: config.client_guid,
                    }))
                } else {
                    r.0 == state && r.1 is None
                },
                unconnected::PacketView::OpenConnectionReply2 { mtu, .. } => if state matches
                    ClientState::WaitingReply2 { .. } {
                    r.0 == (ClientState::Connected { peer: Peer { addr: server_addr, mtu } })
                        && r.1 is None
                } else {
                    r.0 == state && r.1 is None
                },
                unconnected::PacketView::IncompatibleProtocol { server_protocol, .. } => r.0 == (
                ClientState::Failed {
                    err: HandshakeError::IncompatibleProtocol { server_protocol },
                }) && r.1 is None,
                unconnected::PacketView::AlreadyConnected { .. } => r.0 == (ClientState::Failed {
                    err: HandshakeError::AlreadyConnected,
                }) && r.1 is None,
                unconnected::PacketView::ConnectionRequestFailed { .. } => r.0 == (
                ClientState::Failed { err: HandshakeError::ConnectionRequestFailed }) && r.1
                    is None,
                _ => r.0 == state && r.1 is None,
            }
        }),
{
    match packet {
        unconnected::Packet::OpenConnectionReply1 { mtu, .. } => {
            if matches!(state, ClientState::WaitingReply1) {
                (
                    ClientState::WaitingReply2 { mtu: *mtu },
                    Some(
                        unconnected::Packet::OpenConnectionRequest2 {
                            server_address: server_addr,
                            mtu: *mtu,
                            client_guid: config.client_guid,
                        },
                    ),
                )
            } else {
                (state, None)
            }
        },
        unconnected::Packet::OpenConnectionReply2 { mtu, .. } => {
            if matches!(state, ClientState::WaitingReply2 { .. }) {
                (ClientState::Connected { peer: Peer { addr: server_addr, mtu: *mtu } }, None)
            } else {
                (state, None)
            }
        },
        unconnected::Packet::IncompatibleProtocol { server_protocol, .. } => (
            ClientState::Failed {
                err: HandshakeError::IncompatibleProtocol { server_protocol: *server_protocol },
            },
            None,
        ),
        unconnected::Packet::AlreadyConnected { .. } => (
            ClientState::Failed { err: HandshakeError::AlreadyConnected },
            None,
        ),
        unconnected::Packet::ConnectionRequestFailed { .. } => (
            ClientState::Failed { err: HandshakeError::ConnectionRequestFailed },
            None,
        ),
        _ => (state, None),
    }
}

} // verus!
