//! Unconnected (offline handshake) packets and their wire form.
use vstd::prelude::*;

use crate::buffer::{be_at, be_bytes, push_all, read_be, write_be};
use crate::errors::CodecError;
use crate::packet::{
    addr_bytes, check_magic_at, get_checked_magic, get_socket_addr, magic_seq, parse_addr,
    put_magic, put_socket_addr, Addr, PackId,
};

verus! {

/// An unconnected packet; every variant carries the fixed magic on the wire.
#[derive(Debug, Clone, PartialEq, Eq)]
pub enum Packet {
    UnconnectedPing { send_timestamp: u64, client_guid: u64 },
    UnconnectedPong { send_timestamp: u64, server_guid: u64, data: Vec<u8> },
    OpenConnectionRequest1 { protocol_version: u8, mtu: u16 },
    OpenConnectionReply1 { server_guid: u64, use_encryption: bool, mtu: u16 },
    OpenConnectionRequest2 { server_address: Addr, mtu: u16, client_guid: u64 },
    OpenConnectionReply2 {
        server_guid: u64,
        client_address: Addr,
        mtu: u16,
        encryption_enabled: bool,
    },
    IncompatibleProtocol { server_protocol: u8, server_guid: u64 },
    AlreadyConnected { server_guid: u64 },
    ConnectionRequestFailed { server_guid: u64 },
}

/// Mathematical image of an unconnected packet.
#[verifier::ext_equal]
pub ghost enum PacketView {
    UnconnectedPing { send_timestamp: u64, client_guid: u64 },
    UnconnectedPong { send_timestamp: u64, server_guid: u64, data: Seq<u8> },
    OpenConnectionRequest1 { protocol_version: u8, mtu: u16 },
    OpenConnectionReply1 { server_guid: u64, use_encryption: bool, mtu: u16 },
    OpenConnectionRequest2 { server_address: Addr, mtu: u16, client_guid: u64 },
    OpenConnectionReply2 {
        server_guid: u64,
        client_address: Addr,
        mtu: u16,
        encryption_enabled: bool,
    },
    IncompatibleProtocol { server_protocol: u8, server_guid: u64 },
    AlreadyConnected { server_guid: u64 },
    ConnectionRequestFailed { server_guid: u64 },
}

impl View for Packet {
    type V = PacketView;

    open spec fn view(&self) -> PacketView {
        match self {
            Packet::UnconnectedPing { send_timestamp, client_guid } => (
            PacketView::UnconnectedPing {
                send_timestamp: *send_timestamp,
                client_guid: *client_guid,
            }),
            Packet::UnconnectedPong { send_timestamp, server_guid, data } => (
            PacketView::UnconnectedPong {
                send_timestamp: *send_timestamp,
                server_guid: *server_guid,
                data: data@,
            }),
            Packet::OpenConnectionRequest1 { protocol_version, mtu } => (
            PacketView::OpenConnectionRequest1 { protocol_version: *protocol_version, mtu: *mtu }),
            Packet::OpenConnectionReply1 { server_guid, use_encryption, mtu } => (
            PacketView::OpenConnectionReply1 {
                server_guid: *server_guid,
                use_encryption: *use_encryption,
                mtu: *mtu,
            }),
            Packet::OpenConnectionRequest2 { server_address, mtu, client_guid } => (
            PacketView::OpenConnectionRequest2 {
                server_address: *server_address,
                mtu: *mtu,
                client_guid: *client_guid,
            }),
            Packet::OpenConnectionReply2 { server_guid, client_address, mtu, encryption_enabled } => (PacketView::OpenConnectionReply2 {
                server_guid: *server_guid,
                client_address: *client_address,
                mtu: *mtu,
                encryption_enabled: *encryption_enabled,
            }),
            Packet::IncompatibleProtocol { server_protocol, server_guid } => (
            PacketView::IncompatibleProtocol {
                server_protocol: *server_protocol,
                server_guid: *server_guid,
            }),
            Packet::AlreadyConnected { server_guid } => (PacketView::AlreadyConnected {
                server_guid: *server_guid,
            }),
            Packet::ConnectionRequestFailed { server_guid } => (
            PacketView::ConnectionRequestFailed { server_guid: *server_guid }),
        }
    }
}

/// The id byte each unconnected packet is written under.
pub open spec fn unconnected_pack_id(p: PacketView) -> PackId {
    match p {
        PacketView::UnconnectedPing { .. } => PackId::UnconnectedPing1,
        PacketView::UnconnectedPong { .. } => PackId::UnconnectedPong,
        PacketView::OpenConnectionRequest1 { .. } => PackId::OpenConnectionRequest1,
        PacketView::OpenConnectionReply1 { .. } => PackId::OpenConnectionReply1,
        PacketView::OpenConnectionRequest2 { .. } => PackId::OpenConnectionRequest2,
        PacketView::OpenConnectionReply2 { .. } => PackId::OpenConnectionReply2,
        PacketView::IncompatibleProtocol { .. } => PackId::IncompatibleProtocolVersion,
        PacketView::AlreadyConnected { .. } => PackId::AlreadyConnected,
        PacketView::ConnectionRequestFailed { .. } => PackId::ConnectionRequestFailed,
    }
}

pub open spec fn bool_byte(b: bool) -> u8 {
    if b {
        1u8
    } else {
        0u8
    }
}

/// The encoded body of an unconnected packet, after its id byte.
pub open spec fn unconnected_bytes(p: PacketView) -> Seq<u8> {
    match p {
        PacketView::UnconnectedPing { send_timestamp, client_guid } => be_bytes(
            send_timestamp as int,
            8,
        ) + magic_seq() + be_bytes(client_guid as int, 8),
        PacketView::UnconnectedPong { send_timestamp, server_guid, data } => be_bytes(
            send_timestamp as int,
            8,
        ) + be_bytes(server_guid as int, 8) + magic_seq() + data,
        PacketView::OpenConnectionRequest1 { protocol_version, mtu } => magic_seq() + seq![
            protocol_version,
        ] + be_bytes(mtu as int, 2),
        PacketView::OpenConnectionReply1 { server_guid, use_encryption, mtu } => magic_seq()
            + be_bytes(server_guid as int, 8) + seq![bool_byte(use_encryption)] + be_bytes(
            mtu as int,
            2,
        ),
        PacketView::OpenConnectionRequest2 { server_address, mtu, client_guid } => magic_seq()
            + addr_bytes(server_address) + be_bytes(mtu as int, 2) + be_bytes(client_guid as int, 8),
        PacketView::OpenConnectionReply2 { server_guid, client_address, mtu, encryption_enabled } =>
            magic_seq() + be_bytes(server_guid as int, 8) + addr_bytes(client_address) + be_bytes(
            mtu as int,
            2,
        ) + seq![bool_byte(encryption_enabled)],
        PacketView::IncompatibleProtocol { server_protocol, server_guid } => seq![server_protocol]
            + magic_seq() + be_bytes(server_guid as int, 8),
        PacketView::AlreadyConnected { server_guid } => magic_seq() + be_bytes(
            server_guid as int,
            8,
        ),
        PacketView::ConnectionRequestFailed { server_guid } => magic_seq() + be_bytes(
            server_guid as int,
            8,
        ),
    }
}

/// What decoding the body of an unconnected packet of kind `id` yields,
/// mirroring the per-kind minimum lengths and field order of the wire format.
pub open spec fn parse_unconnected(b: Seq<u8>, pos: int, id: PackId) -> Result<
    PacketView,
    CodecError,
> {
    if id is UnconnectedPing1 || id is UnconnectedPing2 {
        if pos + 32 > b.len() {
            Err(CodecError::InvalidPacketLength)
        } else {
            match check_magic_at(b, pos + 8) {
                Err(e) => Err(e),
                Ok(_) => Ok(
                    PacketView::UnconnectedPing {
                        send_timestamp: be_at(b, pos, 8) as u64,
                        client_guid: be_at(b, pos + 24, 8) as u64,
                    },
                ),
            }
        }
    } else if id is UnconnectedPong {
        if pos + 32 > b.len() {
            Err(CodecError::InvalidPacketLength)
        } else {
            match check_magic_at(b, pos + 16) {
                Err(e) => Err(e),
                Ok(_) => Ok(
                    PacketView::UnconnectedPong {
                        send_timestamp: be_at(b, pos, 8) as u64,
                        server_guid: be_at(b, pos + 8, 8) as u64,
                        data: b.subrange(pos + 32, b.len() as int),
                    },
                ),
            }
        }
    } else if id is OpenConnectionRequest1 {
        if pos + 19 > b.len() {
            Err(CodecError::InvalidPacketLength)
        } else {
            match check_magic_at(b, pos) {
                Err(e) => Err(e),
                Ok(_) => Ok(
                    PacketView::OpenConnectionRequest1 {
                        protocol_version: b[pos + 16],
                        mtu: be_at(b, pos + 17, 2) as u16,
                    },
                ),
            }
        }
    } else if id is OpenConnectionReply1 {
        if pos + 27 > b.len() {
            Err(CodecError::InvalidPacketLength)
        } else {
            match check_magic_at(b, pos) {
                Err(e) => Err(e),
                Ok(_) => Ok(
                    PacketView::OpenConnectionReply1 {
                        server_guid: be_at(b, pos + 16, 8) as u64,
                        use_encryption: b[pos + 24] != 0,
                        mtu: be_at(b, pos + 25, 2) as u16,
                    },
                ),
            }
        }
    } else if id is OpenConnectionRequest2 {
        match check_magic_at(b, pos) {
            Err(e) => Err(e),
            Ok(p) => match parse_addr(b, p) {
                Err(e) => Err(e),
                Ok(ap) => {
                    if ap.1 + 10 > b.len() {
                        Err(CodecError::InvalidPacketLength)
                    } else {
                        Ok(
                            PacketView::OpenConnectionRequest2 {
                                server_address: ap.0,
                                mtu: be_at(b, ap.1, 2) as u16,
                                client_guid: be_at(b, ap.1 + 2, 8) as u64,
                            },
                        )
                    }
                },
            },
        }
    } else if id is OpenConnectionReply2 {
        match check_magic_at(b, pos) {
            Err(e) => Err(e),
            Ok(p) => {
                if p + 8 > b.len() {
                    Err(CodecError::InvalidPacketLength)
                } else {
                    match parse_addr(b, p + 8) {
                        Err(e) => Err(e),
                        Ok(ap) => {
                            if ap.1 + 3 > b.len() {
                                Err(CodecError::InvalidPacketLength)
                            } else {
                                Ok(
                                    PacketView::OpenConnectionReply2 {
                                        server_guid: be_at(b, p, 8) as u64,
                                        client_address: ap.0,
                                        mtu: be_at(b, ap.1, 2) as u16,
                                        encryption_enabled: b[ap.1 + 2] != 0,
                                    },
                                )
                            }
                        },
                    }
                }
            },
        }
    } else if id is IncompatibleProtocolVersion {
        if pos + 25 > b.len() {
            Err(CodecError::InvalidPacketLength)
        } else {
            match check_magic_at(b, pos + 1) {
                Err(e) => Err(e),
                Ok(_) => Ok(
                    PacketView::IncompatibleProtocol {
                        server_protocol: b[pos],
                        server_guid: be_at(b, pos + 17, 8) as u64,
                    },
                ),
            }
        }
    } else if id is AlreadyConnected {
        if pos + 24 > b.len() {
            Err(CodecError::InvalidPacketLength)
        } else {
            match check_magic_at(b, pos) {
                Err(e) => Err(e),
                Ok(_) => Ok(
                    PacketView::AlreadyConnected { server_guid: be_at(b, pos + 16, 8) as u64 },
                ),
            }
        }
    } else {
        Err(CodecError::InvalidPacketId(crate::packet::pack_id_byte(id)))
    }
}

impl Packet {
    /// The id this packet is written under.
    pub fn pack_id(&self) -> (r: PackId)
        ensures
            r == unconnected_pack_id(self@),
    {
        match self {
            Packet::UnconnectedPing { .. } => PackId::UnconnectedPing1,
            Packet::UnconnectedPong { .. } => PackId::UnconnectedPong,
            Packet::OpenConnectionRequest1 { .. } => PackId::OpenConnectionRequest1,
            Packet::OpenConnectionReply1 { .. } => PackId::OpenConnectionReply1,
            Packet::OpenConnectionRequest2 { .. } => PackId::OpenConnectionRequest2,
            Packet::OpenConnectionReply2 { .. } => PackId::OpenConnectionReply2,
            Packet::IncompatibleProtocol { .. } => PackId::IncompatibleProtocolVersion,
            Packet::AlreadyConnected { .. } => PackId::AlreadyConnected,
            Packet::ConnectionRequestFailed { .. } => PackId::ConnectionRequestFailed,
        }
    }

    /// Encode this packet's body (after its id byte) onto `buf`.
    pub fn write(&self, buf: &mut Vec<u8>)
        ensures
            final(buf)@ == old(buf)@ + unconnected_bytes(self@),
    {
        match self {
            Packet::UnconnectedPing { send_timestamp, client_guid } => {
                write_be(buf, *send_timestamp as u128, 8);
                put_magic(buf);
                write_be(buf, *client_guid as u128, 8);
            },
            Packet::UnconnectedPong { send_timestamp, server_guid, data } => {
                write_be(buf, *send_timestamp as u128, 8);
                write_be(buf, *server_guid as u128, 8);
                put_magic(buf);
                push_all(buf, data);
            },
            Packet::OpenConnectionRequest1 { protocol_version, mtu } => {
                put_magic(buf);
                buf.push(*protocol_version);
                write_be(buf, *mtu as u128, 2);
            },
            Packet::OpenConnectionReply1 { server_guid, use_encryption, mtu } => {
                put_magic(buf);
                write_be(buf, *server_guid as u128, 8);
                buf.push(
                    if *use_encryption {
                        1
                    } else {
                        0
                    },
                );
                write_be(buf, *mtu as u128, 2);
            },
            Packet::OpenConnectionRequest2 { server_address, mtu, client_guid } => {
                put_magic(buf);
                put_socket_addr(buf, *server_address);
                write_be(buf, *mtu as u128, 2);
                write_be(buf, *client_guid as u128, 8);
            },
            Packet::OpenConnectionReply2 { server_guid, client_address, mtu, encryption_enabled } => {
                put_magic(buf);
                write_be(buf, *server_guid as u128, 8);
                put_socket_addr(buf, *client_address);
                write_be(buf, *mtu as u128, 2);
                buf.push(
                    if *encryption_enabled {
                        1
                    } else {
                        0
                    },
                );
            },
            Packet::IncompatibleProtocol { server_protocol, server_guid } => {
                buf.push(*server_protocol);
                put_magic(buf);
                write_be(buf, *server_guid as u128, 8);
            },
            Packet::AlreadyConnected { server_guid } => {
                put_magic(buf);
                write_be(buf, *server_guid as u128, 8);
            },
            Packet::ConnectionRequestFailed { server_guid } => {
                put_magic(buf);
                write_be(buf, *server_guid as u128, 8);
            },
        }
        proof {
            assert(buf@ =~= old(buf)@ + unconnected_bytes(self@));
        }
    }

    /// Decode the body of an unconnected packet of kind `id` at `pos`.
    pub fn read_body(buf: &Vec<u8>, pos: usize, id: PackId) -> (r: Result<Packet, CodecError>)
        requires
            pos <= buf@.len(),
        ensures
            match r {
                Ok(p) => parse_unconnected(buf@, pos as int, id) == Ok::<PacketView, CodecError>(
                    p@,
                ),
                Err(e) => parse_unconnected(buf@, pos as int, id) == Err::<PacketView, CodecError>(
                    e,
                ),
            },
    {
        proof {
            crate::buffer::lemma_pow256_small();
        }
        let total = buf.len();
        match id {
            PackId::UnconnectedPing1 | PackId::UnconnectedPing2 => {
                if total - pos < 32 {
                    return Err(CodecError::InvalidPacketLength);
                }
                let Some((ts, _)) = read_be(buf, pos, 8) else {
                    return Err(CodecError::InvalidPacketLength);
                };
                let p = get_checked_magic(buf, pos + 8)?;
                let Some((guid, _)) = read_be(buf, p, 8) else {
                    return Err(CodecError::InvalidPacketLength);
                };
                Ok(
                    Packet::UnconnectedPing {
                        send_timestamp: ts as u64,
                        client_guid: guid as u64,
                    },
                )
            },
            PackId::UnconnectedPong => {
                if total - pos < 32 {
                    return Err(CodecError::InvalidPacketLength);
                }
                let Some((ts, _)) = read_be(buf, pos, 8) else {
                    return Err(CodecError::InvalidPacketLength);
                };
                let Some((guid, _)) = read_be(buf, pos + 8, 8) else {
                    return Err(CodecError::InvalidPacketLength);
                };
                let p = get_checked_magic(buf, pos + 16)?;
                let data = crate::buffer::copy_range(buf, p, total - p);
                Ok(
                    Packet::UnconnectedPong {
                        send_timestamp: ts as u64,
                        server_guid: guid as u64,
                        data,
                    },
                )
            },
            PackId::OpenConnectionRequest1 => {
                if total - pos < 19 {
                    return Err(CodecError::InvalidPacketLength);
                }
                let p = get_checked_magic(buf, pos)?;
                let protocol_version = buf[p];
                let Some((mtu, _)) = read_be(buf, p + 1, 2) else {
                    return Err(CodecError::InvalidPacketLength);
                };
                Ok(Packet::OpenConnectionRequest1 { protocol_version, mtu: mtu as u16 })
            },
            PackId::OpenConnectionReply1 => {
                if total - pos < 27 {
                    return Err(CodecError::InvalidPacketLength);
                }
                let p = get_checked_magic(buf, pos)?;
                let Some((guid, _)) = read_be(buf, p, 8) else {
                    return Err(CodecError::InvalidPacketLength);
                };
                let use_encryption = buf[p + 8] != 0;
                let Some((mtu, _)) = read_be(buf, p + 9, 2) else {
                    return Err(CodecError::InvalidPacketLength);
                };
                Ok(
                    Packet::OpenConnectionReply1 {
                        server_guid: guid as u64,
                        use_encryption,
                        mtu: mtu as u16,
                    },
                )
            },
            PackId::OpenConnectionRequest2 => {
                let p = get_checked_magic(buf, pos)?;
                let (server_address, p2) = get_socket_addr(buf, p)?;
                if total - p2 < 10 {
                    return Err(CodecError::InvalidPacketLength);
                }
                let Some((mtu, _)) = read_be(buf, p2, 2) else {
                    return Err(CodecError::InvalidPacketLength);
                };
                let Some((guid, _)) = read_be(buf, p2 + 2, 8) else {
                    return Err(CodecError::InvalidPacketLength);
                };
                Ok(
                    Packet::OpenConnectionRequest2 {
                        server_address,
                        mtu: mtu as u16,
                        client_guid: guid as u64,
                    },
                )
            },
            PackId::OpenConnectionReply2 => {
                let p = get_checked_magic(buf, pos)?;
                let Some((guid, _)) = read_be(buf, p, 8) else {
                    return Err(CodecError::InvalidPacketLength);
                };
                let (client_address, p2) = get_socket_addr(buf, p + 8)?;
                if total - p2 < 3 {
                    return Err(CodecError::InvalidPacketLength);
                }
                let Some((mtu, _)) = read_be(buf, p2, 2) else {
                    return Err(CodecError::InvalidPacketLength);
                };
                let encryption_enabled = buf[p2 + 2] != 0;
                Ok(
                    Packet::OpenConnectionReply2 {
                        server_guid: guid as u64,
                        client_address,
                        mtu: mtu as u16,
                        encryption_enabled,
                    },
                )
            },
            PackId::IncompatibleProtocolVersion => {
                if total - pos < 25 {
                    return Err(CodecError::InvalidPacketLength);
                }
                let server_protocol = buf[pos];
                let p = get_checked_magic(buf, pos + 1)?;
                let Some((guid, _)) = read_be(buf, p, 8) else {
                    return Err(CodecError::InvalidPacketLength);
                };
                Ok(
                    Packet::IncompatibleProtocol {
                        server_protocol,
                        server_guid: guid as u64,
                    },
                )
            },
            PackId::AlreadyConnected => {
                if total - pos < 24 {
                    return Err(CodecError::InvalidPacketLength);
                }
                let p = get_checked_magic(buf, pos)?;
                let Some((guid, _)) = read_be(buf, p, 8) else {
                    return Err(CodecError::InvalidPacketLength);
                };
                Ok(Packet::AlreadyConnected { server_guid: guid as u64 })
            },
            _ => Err(CodecError::InvalidPacketId(id.to_u8())),
        }
    }
}

} // verus!
