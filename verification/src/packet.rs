//! Packet identifiers, the unconnected-packet magic, and socket-address
//! fields of the wire format.
use vstd::prelude::*;

use crate::buffer::{
    be_at, be_bytes, lemma_be_at_bytes, lemma_be_bytes_len, lemma_pow256_small, pow256, read_be,
    write_be,
};
use crate::errors::CodecError;

verus! {

/// Packet IDs. Some appear as the first byte of a datagram; others are
/// carried inside a frame body.
#[derive(Debug, Clone, Copy, PartialEq, Eq, Structural)]
pub enum PackId {
    ConnectedPing,
    UnconnectedPing1,
    UnconnectedPing2,
    ConnectedPong,
    LostConnections,
    OpenConnectionRequest1,
    OpenConnectionReply1,
    OpenConnectionRequest2,
    OpenConnectionReply2,
    ConnectionRequest,
    ConnectionRequestAccepted,
    ConnectionRequestFailed,
    AlreadyConnected,
    NewIncomingConnection,
    NoFreeIncomingConnections,
    DisconnectNotification,
    ConnectionLost,
    ConnectionBanned,
    IncompatibleProtocolVersion,
    IpRecentlyConnected,
    Timestamp,
    UnconnectedPong,
    AdvertiseSystem,
    Game,
    Ack,
    Nack,
    FrameSet,
}

/// The id byte written for each packet kind.
pub open spec fn pack_id_byte(p: PackId) -> u8 {
    match p {
        PackId::ConnectedPing => 0x00,
        PackId::UnconnectedPing1 => 0x01,
        PackId::UnconnectedPing2 => 0x02,
        PackId::ConnectedPong => 0x03,
        PackId::LostConnections => 0x04,
        PackId::OpenConnectionRequest1 => 0x05,
        PackId::OpenConnectionReply1 => 0x06,
        PackId::OpenConnectionRequest2 => 0x07,
        PackId::OpenConnectionReply2 => 0x08,
        PackId::ConnectionRequest => 0x09,
        PackId::ConnectionRequestAccepted => 0x10,
        PackId::ConnectionRequestFailed => 0x11,
        PackId::AlreadyConnected => 0x12,
        PackId::NewIncomingConnection => 0x13,
        PackId::NoFreeIncomingConnections => 0x14,
        PackId::DisconnectNotification => 0x15,
        PackId::ConnectionLost => 0x16,
        PackId::ConnectionBanned => 0x17,
        PackId::IncompatibleProtocolVersion => 0x19,
        PackId::IpRecentlyConnected => 0x1a,
        PackId::Timestamp => 0x1b,
        PackId::UnconnectedPong => 0x1c,
        PackId::AdvertiseSystem => 0x1d,
        PackId::Game => 0xfe,
        PackId::Ack => 0xc0,
        PackId::Nack => 0xa0,
        PackId::FrameSet => 0x80,
    }
}

/// The packet kind a leading byte names; connected-family bytes collapse onto
/// the `Ack`, `Nack` and `FrameSet` kinds by their flag bits.
pub open spec fn pack_id_of(id: u8) -> Result<PackId, CodecError> {
    if id == 0x00 {
        Ok(PackId::ConnectedPing)
    } else if id == 0x01 {
        Ok(PackId::UnconnectedPing1)
    } else if id == 0x02 {
        Ok(PackId::UnconnectedPing2)
    } else if id == 0x03 {
        Ok(PackId::ConnectedPong)
    } else if id == 0x04 {
        Ok(PackId::LostConnections)
    } else if id == 0x05 {
        Ok(PackId::OpenConnectionRequest1)
    } else if id == 0x06 {
        Ok(PackId::OpenConnectionReply1)
    } else if id == 0x07 {
        Ok(PackId::OpenConnectionRequest2)
    } else if id == 0x08 {
        Ok(PackId::OpenConnectionReply2)
    } else if id == 0x09 {
        Ok(PackId::ConnectionRequest)
    } else if id == 0x10 {
        Ok(PackId::ConnectionRequestAccepted)
    } else if id == 0x12 {
        Ok(PackId::AlreadyConnected)
    } else if id == 0x13 {
        Ok(PackId::NewIncomingConnection)
    } else if id == 0x15 {
        Ok(PackId::DisconnectNotification)
    } else if id == 0x19 {
        Ok(PackId::IncompatibleProtocolVersion)
    } else if id == 0x1c {
        Ok(PackId::UnconnectedPong)
    } else if id == 0xfe {
        Ok(PackId::Game)
    } else if id >= 0xc0 {
        Ok(PackId::Ack)
    } else if id >= 0xa0 {
        Ok(PackId::Nack)
    } else if id >= 0x80 {
        Ok(PackId::FrameSet)
    } else {
        Err(CodecError::InvalidPacketId(id))
    }
}

impl PackId {
    pub fn from_u8(id: u8) -> (r: Result<PackId, CodecError>)
        ensures
            r == pack_id_of(id),
    {
        match id {
            0x00 => Ok(PackId::ConnectedPing),
            0x01 => Ok(PackId::UnconnectedPing1),
            0x02 => Ok(PackId::UnconnectedPing2),
            0x03 => Ok(PackId::ConnectedPong),
            0x04 => Ok(PackId::LostConnections),
            0x05 => Ok(PackId::OpenConnectionRequest1),
            0x06 => Ok(PackId::OpenConnectionReply1),
            0x07 => Ok(PackId::OpenConnectionRequest2),
            0x08 => Ok(PackId::OpenConnectionReply2),
            0x09 => Ok(PackId::ConnectionRequest),
            0x10 => Ok(PackId::ConnectionRequestAccepted),
            0x12 => Ok(PackId::AlreadyConnected),
            0x13 => Ok(PackId::NewIncomingConnection),
            0x15 => Ok(PackId::DisconnectNotification),
            0x19 => Ok(PackId::IncompatibleProtocolVersion),
            0x1c => Ok(PackId::UnconnectedPong),
            0xfe => Ok(PackId::Game),
            0xc0..=0xff => Ok(PackId::Ack),
            0xa0..=0xbf => Ok(PackId::Nack),
            0x80..=0x9f => Ok(PackId::FrameSet),
            _ => Err(CodecError::InvalidPacketId(id)),
        }
    }

    pub fn to_u8(self) -> (r: u8)
        ensures
            r == pack_id_byte(self),
    {
        match self {
            PackId::ConnectedPing => 0x00,
            PackId::UnconnectedPing1 => 0x01,
            PackId::UnconnectedPing2 => 0x02,
            PackId::ConnectedPong => 0x03,
            PackId::LostConnections => 0x04,
            PackId::OpenConnectionRequest1 => 0x05,
            PackId::OpenConnectionReply1 => 0x06,
            PackId::OpenConnectionRequest2 => 0x07,
            PackId::OpenConnectionReply2 => 0x08,
            PackId::ConnectionRequest => 0x09,
            PackId::ConnectionRequestAccepted => 0x10,
            PackId::ConnectionRequestFailed => 0x11,
            PackId::AlreadyConnected => 0x12,
            PackId::NewIncomingConnection => 0x13,
            PackId::NoFreeIncomingConnections => 0x14,
            PackId::DisconnectNotification => 0x15,
            PackId::ConnectionLost => 0x16,
            PackId::ConnectionBanned => 0x17,
            PackId::IncompatibleProtocolVersion => 0x19,
            PackId::IpRecentlyConnected => 0x1a,
            PackId::Timestamp => 0x1b,
            PackId::UnconnectedPong => 0x1c,
            PackId::AdvertiseSystem => 0x1d,
            PackId::Game => 0xfe,
            PackId::Ack => 0xc0,
            PackId::Nack => 0xa0,
            PackId::FrameSet => 0x80,
        }
    }

    /// Check if it is an unconnected ping.
    pub fn is_unconnected_ping(&self) -> (r: bool)
        ensures
            r == ((*self) is UnconnectedPing1 || (*self) is UnconnectedPing2),
    {
        matches!(self, PackId::UnconnectedPing1 | PackId::UnconnectedPing2)
    }

    /// Check if it is a frame set packet.
    pub fn is_frame_set(&self) -> (r: bool)
        ensures
            r == ((*self) is FrameSet),
    {
        matches!(self, PackId::FrameSet)
    }

    /// Check if it is an ack packet.
    pub fn is_ack(&self) -> (r: bool)
        ensures
            r == ((*self) is Ack),
    {
        matches!(self, PackId::Ack)
    }

    /// Check if it is a nack packet.
    pub fn is_nack(&self) -> (r: bool)
        ensures
            r == ((*self) is Nack),
    {
        matches!(self, PackId::Nack)
    }
}

/// The fixed byte sequence found in every unconnected message.
pub open spec fn magic_seq() -> Seq<u8> {
    seq![
        0x00u8,
        0xffu8,
        0xffu8,
        0x00u8,
        0xfeu8,
        0xfeu8,
        0xfeu8,
        0xfeu8,
        0xfdu8,
        0xfdu8,
        0xfdu8,
        0xfdu8,
        0x12u8,
        0x34u8,
        0x56u8,
        0x78u8,
    ]
}

/// Where the magic check stops: the first mismatching offset and the byte
/// found there, or success when all sixteen bytes match.
pub open spec fn check_magic_at(b: Seq<u8>, pos: int) -> Result<int, CodecError> {
    check_magic_rec(b, pos, 0)
}

pub open spec fn check_magic_rec(b: Seq<u8>, pos: int, i: int) -> Result<int, CodecError>
    decreases 16 - i,
{
    if i >= 16 {
        Ok(pos + 16)
    } else if pos + i >= b.len() {
        Err(CodecError::InvalidPacketLength)
    } else if b[pos + i] != magic_seq()[i] {
        Err(CodecError::MagicNotMatched(i as usize, b[pos + i]))
    } else {
        check_magic_rec(b, pos, i + 1)
    }
}

/// Check the sixteen magic bytes at `pos`; on success the cursor moves past
/// them.
pub fn get_checked_magic(buf: &Vec<u8>, pos: usize) -> (r: Result<usize, CodecError>)
    ensures
        match r {
            Ok(p) => check_magic_at(buf@, pos as int) == Ok::<int, CodecError>(p as int) && p == pos
                + 16 && pos + 16 <= buf@.len(),
            Err(e) => check_magic_at(buf@, pos as int) == Err::<int, CodecError>(e),
        },
{
    let magic: [u8; 16] = [
        0x00,
        0xff,
        0xff,
        0x00,
        0xfe,
        0xfe,
        0xfe,
        0xfe,
        0xfd,
        0xfd,
        0xfd,
        0xfd,
        0x12,
        0x34,
        0x56,
        0x78,
    ];
    let mut i: usize = 0;
    while i < 16
        invariant
            i <= 16,
            pos + i <= usize::MAX,
            (forall|j: int|
                0 <= j < i ==> pos + j < buf@.len() && buf@[pos + j] == magic_seq()[j]),
            check_magic_at(buf@, pos as int) == check_magic_rec(buf@, pos as int, i as int),
            (magic@ =~= magic_seq()),
        decreases 16 - i,
    {
        if pos >= buf.len() || i > buf.len() - 1 - pos {
            return Err(CodecError::InvalidPacketLength);
        }
        let byte = buf[pos + i];
        if byte != magic[i] {
            return Err(CodecError::MagicNotMatched(i, byte));
        }
        i = i + 1;
    }
    proof {
        assert(pos + 15 < buf@.len() && buf@[pos + 15] == magic_seq()[15]);
    }
    Ok(pos + 16)
}

/// Append the sixteen magic bytes.
pub fn put_magic(buf: &mut Vec<u8>)
    ensures
        final(buf)@ == old(buf)@ + magic_seq(),
{
    let magic: [u8; 16] = [
        0x00,
        0xff,
        0xff,
        0x00,
        0xfe,
        0xfe,
        0xfe,
        0xfe,
        0xfd,
        0xfd,
        0xfd,
        0xfd,
        0x12,
        0x34,
        0x56,
        0x78,
    ];
    let mut i: usize = 0;
    while i < 16
        invariant
            i <= 16,
            (buf@ =~= old(buf)@ + magic_seq().take(i as int)),
            (magic@ =~= magic_seq()),
        decreases 16 - i,
    {
        buf.push(magic[i]);
        proof {
            assert(magic_seq().take((i + 1) as int) =~= magic_seq().take(i as int).push(
                magic_seq()[i as int],
            ));
            assert(buf@ =~= old(buf)@ + magic_seq().take((i + 1) as int));
        }
        i = i + 1;
    }
    proof {
        assert(magic_seq().take(16) =~= magic_seq());
    }
}

/// A remote socket address as the wire format carries it.
#[derive(Debug, Clone, Copy, PartialEq, Eq, Hash, Structural)]
pub enum Addr {
    V4 { ip: u32, port: u16 },
    V6 { ip: u128, port: u16, flowinfo: u32, scope: u32 },
}

/// The encoded form of a socket address.
pub open spec fn addr_bytes(a: Addr) -> Seq<u8> {
    match a {
        Addr::V4 { ip, port } => seq![4u8] + be_bytes(ip as int, 4) + be_bytes(port as int, 2),
        Addr::V6 { ip, port, flowinfo, scope } => seq![6u8] + be_bytes(0x17, 2) + be_bytes(
            port as int,
            2,
        ) + be_bytes(flowinfo as int, 4) + be_bytes(ip as int, 16) + be_bytes(scope as int, 4),
    }
}

pub open spec fn addr_bytes_len(a: Addr) -> int {
    match a {
        Addr::V4 { .. } => 7,
        Addr::V6 { .. } => 29,
    }
}

/// What decoding a socket address at `pos` yields.
pub open spec fn parse_addr(b: Seq<u8>, pos: int) -> Result<(Addr, int), CodecError> {
    if pos + 1 > b.len() {
        Err(CodecError::InvalidPacketLength)
    } else {
        let ver = b[pos];
        if ver == 4 {
            if pos + 7 > b.len() {
                Err(CodecError::InvalidPacketLength)
            } else {
                Ok(
                    (
                        Addr::V4 {
                            ip: be_at(b, pos + 1, 4) as u32,
                            port: be_at(b, pos + 5, 2) as u16,
                        },
                        pos + 7,
                    ),
                )
            }
        } else if ver == 6 {
            if pos + 29 > b.len() {
                Err(CodecError::InvalidPacketLength)
            } else if be_at(b, pos + 1, 2) != 0x17 {
                Err(CodecError::InvalidIPV6Family(be_at(b, pos + 1, 2) as u16))
            } else {
                Ok(
                    (
                        Addr::V6 {
                            ip: be_at(b, pos + 9, 16) as u128,
                            port: be_at(b, pos + 3, 2) as u16,
                            flowinfo: be_at(b, pos + 5, 4) as u32,
                            scope: be_at(b, pos + 25, 4) as u32,
                        },
                        pos + 29,
                    ),
                )
            }
        } else {
            Err(CodecError::InvalidIPVer(ver))
        }
    }
}

/// Decode a socket address at `pos`.
pub fn get_socket_addr(buf: &Vec<u8>, pos: usize) -> (r: Result<(Addr, usize), CodecError>)
    ensures
        match r {
            Ok(ap) => parse_addr(buf@, pos as int) == Ok::<(Addr, int), CodecError>(
                (ap.0, ap.1 as int),
            ),
            Err(e) => parse_addr(buf@, pos as int) == Err::<(Addr, int), CodecError>(e),
        },
{
    proof {
        lemma_pow256_small();
    }
    if pos >= buf.len() {
        return Err(CodecError::InvalidPacketLength);
    }
    let ver = buf[pos];
    if ver == 4 {
        let Some((ip, p1)) = read_be(buf, pos + 1, 4) else {
            return Err(CodecError::InvalidPacketLength);
        };
        let Some((port, p2)) = read_be(buf, p1, 2) else {
            return Err(CodecError::InvalidPacketLength);
        };
        Ok((Addr::V4 { ip: ip as u32, port: port as u16 }, p2))
    } else if ver == 6 {
        if buf.len() - pos < 29 {
            return Err(CodecError::InvalidPacketLength);
        }
        let Some((family, p1)) = read_be(buf, pos + 1, 2) else {
            return Err(CodecError::InvalidPacketLength);
        };
        if family != 0x17 {
            return Err(CodecError::InvalidIPV6Family(family as u16));
        }
        let Some((port, p2)) = read_be(buf, p1, 2) else {
            return Err(CodecError::InvalidPacketLength);
        };
        let Some((flowinfo, p3)) = read_be(buf, p2, 4) else {
            return Err(CodecError::InvalidPacketLength);
        };
        let Some((ip, p4)) = read_be(buf, p3, 16) else {
            return Err(CodecError::InvalidPacketLength);
        };
        let Some((scope, p5)) = read_be(buf, p4, 4) else {
            return Err(CodecError::InvalidPacketLength);
        };
        Ok(
            (
                Addr::V6 {
                    ip: ip as u128,
                    port: port as u16,
                    flowinfo: flowinfo as u32,
                    scope: scope as u32,
                },
                p5,
            ),
        )
    } else {
        Err(CodecError::InvalidIPVer(ver))
    }
}

/// Encode a socket address.
pub fn put_socket_addr(buf: &mut Vec<u8>, a: Addr)
    ensures
        final(buf)@ == old(buf)@ + addr_bytes(a),
{
    match a {
        Addr::V4 { ip, port } => {
            buf.push(4);
            write_be(buf, ip as u128, 4);
            write_be(buf, port as u128, 2);
            proof {
                assert(buf@ =~= old(buf)@ + addr_bytes(a));
            }
        },
        Addr::V6 { ip, port, flowinfo, scope } => {
            buf.push(6);
            write_be(buf, 0x17, 2);
            write_be(buf, port as u128, 2);
            write_be(buf, flowinfo as u128, 4);
            write_be(buf, ip as u128, 16);
            write_be(buf, scope as u128, 4);
            proof {
                assert(buf@ =~= old(buf)@ + addr_bytes(a));
            }
        },
    }
}

/// Decoding the bytes that `addr_bytes` wrote yields the address written.
pub proof fn lemma_parse_addr_bytes(b: Seq<u8>, pos: int, a: Addr)
    requires
        0 <= pos,
        pos + addr_bytes_len(a) <= b.len(),
        forall|i: int| 0 <= i < addr_bytes_len(a) ==> b[pos + i] == #[trigger] addr_bytes(a)[i],
    ensures
        parse_addr(b, pos) == Ok::<(Addr, int), CodecError>((a, pos + addr_bytes_len(a))),
{
    lemma_pow256_small();
    match a {
        Addr::V4 { ip, port } => {
            lemma_be_bytes_len(ip as int, 4);
            lemma_be_bytes_len(port as int, 2);
            assert(b[pos + 0] == addr_bytes(a)[0]);
            assert(b[pos] == 4u8);
            assert forall|i: int| 0 <= i < 4 implies b[pos + 1 + i] == #[trigger] be_bytes(
                ip as int,
                4,
            )[i] by {
                assert(b[pos + (1 + i)] == addr_bytes(a)[1 + i]);
            }
            lemma_be_at_bytes(b, pos + 1, ip as int, 4);
            assert forall|i: int| 0 <= i < 2 implies b[pos + 5 + i] == #[trigger] be_bytes(
                port as int,
                2,
            )[i] by {
                assert(b[pos + (5 + i)] == addr_bytes(a)[5 + i]);
            }
            lemma_be_at_bytes(b, pos + 5, port as int, 2);
        },
        Addr::V6 { ip, port, flowinfo, scope } => {
            lemma_be_bytes_len(0x17, 2);
            lemma_be_bytes_len(port as int, 2);
            lemma_be_bytes_len(flowinfo as int, 4);
            lemma_be_bytes_len(ip as int, 16);
            lemma_be_bytes_len(scope as int, 4);
            assert(b[pos + 0] == addr_bytes(a)[0]);
            assert(b[pos] == 6u8);
            assert forall|i: int| 0 <= i < 2 implies b[pos + 1 + i] == #[trigger] be_bytes(
                0x17,
                2,
            )[i] by {
                assert(b[pos + (1 + i)] == addr_bytes(a)[1 + i]);
            }
            lemma_be_at_bytes(b, pos + 1, 0x17, 2);
            assert forall|i: int| 0 <= i < 2 implies b[pos + 3 + i] == #[trigger] be_bytes(
                port as int,
                2,
            )[i] by {
                assert(b[pos + (3 + i)] == addr_bytes(a)[3 + i]);
            }
            lemma_be_at_bytes(b, pos + 3, port as int, 2);
            assert forall|i: int| 0 <= i < 4 implies b[pos + 5 + i] == #[trigger] be_bytes(
                flowinfo as int,
                4,
            )[i] by {
                assert(b[pos + (5 + i)] == addr_bytes(a)[5 + i]);
            }
            lemma_be_at_bytes(b, pos + 5, flowinfo as int, 4);
            assert forall|i: int| 0 <= i < 16 implies b[pos + 9 + i] == #[trigger] be_bytes(
                ip as int,
                16,
            )[i] by {
                assert(b[pos + (9 + i)] == addr_bytes(a)[9 + i]);
            }
            lemma_be_at_bytes(b, pos + 9, ip as int, 16);
            assert forall|i: int| 0 <= i < 4 implies b[pos + 25 + i] == #[trigger] be_bytes(
                scope as int,
                4,
            )[i] by {
                assert(b[pos + (25 + i)] == addr_bytes(a)[25 + i]);
            }
            lemma_be_at_bytes(b, pos + 25, scope as int, 4);
        },
    }
}

/// A whole datagram's payload: one packet of either family.
#[derive(Debug, Clone, PartialEq, Eq)]
pub enum Packet {
    Unconnected(crate::unconnected::Packet),
    Connected(crate::connected::Packet),
}

/// Mathematical image of a packet.
#[verifier::ext_equal]
pub ghost enum PacketView {
    Unconnected(crate::unconnected::PacketView),
    Connected(crate::connected::PacketView),
}

impl View for Packet {
    type V = PacketView;

    open spec fn view(&self) -> PacketView {
        match self {
            Packet::Unconnected(p) => PacketView::Unconnected(p@),
            Packet::Connected(p) => PacketView::Connected(p@),
        }
    }
}

/// The id byte a packet is written under.
pub open spec fn packet_pack_id(p: PacketView) -> PackId {
    match p {
        PacketView::Unconnected(u) => crate::unconnected::unconnected_pack_id(u),
        PacketView::Connected(c) => match c {
            crate::connected::PacketView::FrameSet(_) => PackId::FrameSet,
            crate::connected::PacketView::Ack(_) => PackId::Ack,
            crate::connected::PacketView::Nack(_) => PackId::Nack,
        },
    }
}

/// Well-formedness a packet needs before it can be encoded.
pub open spec fn packet_wf(p: PacketView) -> bool {
    match p {
        PacketView::Unconnected(_) => true,
        PacketView::Connected(c) => match c {
            crate::connected::PacketView::FrameSet(fs) => fs.wf(),
            crate::connected::PacketView::Ack(s) => s.len() <= 0xffff && (forall|k: int|
                0 <= k < s.len() ==> crate::ack::record_wf(#[trigger] s[k])),
            crate::connected::PacketView::Nack(s) => s.len() <= 0xffff && (forall|k: int|
                0 <= k < s.len() ==> crate::ack::record_wf(#[trigger] s[k])),
        },
    }
}

/// The encoded form of a packet: its id byte, then its body.
pub open spec fn packet_bytes(p: PacketView) -> Seq<u8> {
    match p {
        PacketView::Unconnected(u) => seq![
            pack_id_byte(crate::unconnected::unconnected_pack_id(u)),
        ] + crate::unconnected::unconnected_bytes(u),
        PacketView::Connected(c) => match c {
            crate::connected::PacketView::FrameSet(fs) => seq![0x80u8]
                + crate::connected::frame_set_bytes(fs),
            crate::connected::PacketView::Ack(s) => seq![0xc0u8] + crate::ack::ack_bytes(s),
            crate::connected::PacketView::Nack(s) => seq![0xa0u8] + crate::ack::ack_bytes(s),
        },
    }
}

/// What decoding a whole datagram yields: nothing for an empty buffer, a
/// packet, or the error the malformed buffer earns.
pub open spec fn parse_packet(b: Seq<u8>) -> Result<Option<PacketView>, CodecError> {
    if b.len() == 0 {
        Ok(None)
    } else {
        match pack_id_of(b[0]) {
            Err(e) => Err(e),
            Ok(id) => {
                if id is FrameSet {
                    match crate::connected::parse_frame_set(b, 1) {
                        Err(e) => Err(e),
                        Ok(fs) => Ok(
                            Some(
                                PacketView::Connected(
                                    crate::connected::PacketView::FrameSet(fs),
                                ),
                            ),
                        ),
                    }
                } else if id is Ack {
                    match crate::ack::parse_ack(b, 1) {
                        Err(e) => Err(e),
                        Ok(s) => Ok(
                            Some(PacketView::Connected(crate::connected::PacketView::Ack(s))),
                        ),
                    }
                } else if id is Nack {
                    match crate::ack::parse_ack(b, 1) {
                        Err(e) => Err(e),
                        Ok(s) => Ok(
                            Some(PacketView::Connected(crate::connected::PacketView::Nack(s))),
                        ),
                    }
                } else if id is UnconnectedPing1 || id is UnconnectedPing2 || id is UnconnectedPong
                    || id is OpenConnectionRequest1 || id is OpenConnectionReply1
                    || id is IncompatibleProtocolVersion || id is AlreadyConnected
                    || id is OpenConnectionRequest2 || id is OpenConnectionReply2 {
                    match crate::unconnected::parse_unconnected(b, 1, id) {
                        Err(e) => Err(e),
                        Ok(u) => Ok(Some(PacketView::Unconnected(u))),
                    }
                } else {
                    Err(CodecError::InvalidPacketId(pack_id_byte(id)))
                }
            },
        }
    }
}

impl Packet {
    /// The packet id.
    pub fn pack_id(&self) -> (r: PackId)
        ensures
            r == packet_pack_id(self@),
    {
        match self {
            Packet::Unconnected(p) => p.pack_id(),
            Packet::Connected(p) => match p {
                crate::connected::Packet::FrameSet(_) => PackId::FrameSet,
                crate::connected::Packet::Ack(_) => PackId::Ack,
                crate::connected::Packet::Nack(_) => PackId::Nack,
            },
        }
    }

    /// Encode this packet, id byte first, onto `buf`.
    pub fn write(&self, buf: &mut Vec<u8>)
        requires
            packet_wf(self@),
        ensures
            final(buf)@ == old(buf)@ + packet_bytes(self@),
    {
        let id = self.pack_id();
        buf.push(id.to_u8());
        match self {
            Packet::Unconnected(p) => {
                p.write(buf);
            },
            Packet::Connected(p) => match p {
                crate::connected::Packet::FrameSet(fs) => {
                    fs.write(buf);
                },
                crate::connected::Packet::Ack(a) => {
                    a.write(buf);
                },
                crate::connected::Packet::Nack(a) => {
                    a.write(buf);
                },
            },
        }
        proof {
            assert(buf@ =~= old(buf)@ + packet_bytes(self@));
        }
    }

    /// Decode a whole datagram: `None` for an empty buffer.
    pub fn read(buf: &Vec<u8>) -> (r: Result<Option<Packet>, CodecError>)
        ensures
            match r {
                Ok(op) => parse_packet(buf@) == Ok::<Option<PacketView>, CodecError>(
                    match op {
                        Some(p) => Some(p@),
                        None => None,
                    },
                ),
                Err(e) => parse_packet(buf@) == Err::<Option<PacketView>, CodecError>(e),
            },
    {
        if buf.len() == 0 {
            return Ok(None);
        }
        let id = PackId::from_u8(buf[0])?;
        if id.is_frame_set() {
            let fs = crate::connected::FrameSet::read(buf, 1)?;
            return Ok(Some(Packet::Connected(crate::connected::Packet::FrameSet(fs))));
        }
        if id.is_ack() {
            let a = crate::ack::AckOrNack::read(buf, 1)?;
            return Ok(Some(Packet::Connected(crate::connected::Packet::Ack(a))));
        }
        if id.is_nack() {
            let a = crate::ack::AckOrNack::read(buf, 1)?;
            return Ok(Some(Packet::Connected(crate::connected::Packet::Nack(a))));
        }
        match id {
            PackId::UnconnectedPing1
            | PackId::UnconnectedPing2
            | PackId::UnconnectedPong
            | PackId::OpenConnectionRequest1
            | PackId::OpenConnectionReply1
            | PackId::IncompatibleProtocolVersion
            | PackId::AlreadyConnected
            | PackId::OpenConnectionRequest2
            | PackId::OpenConnectionReply2 => {
                let p = crate::unconnected::Packet::read_body(buf, 1, id)?;
                Ok(Some(Packet::Unconnected(p)))
            },
            _ => Err(CodecError::InvalidPacketId(id.to_u8())),
        }
    }
}

} // verus!
