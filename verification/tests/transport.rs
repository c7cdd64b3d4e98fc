use std::collections::VecDeque;

use raknet::ack::{AckOrNack, Record};
use raknet::client::{client_step, request1, ClientState};
use raknet::connected::{Flags, Frame, FrameSet, Fragment, Ordered, Packet as ConnectedPacket, Reliability};
use raknet::errors::{CodecError, HandshakeError};
use raknet::online::FrameMaker;
use raknet::ordered::OrderChannel;
use raknet::outgoing_ack::OutgoingAck;
use raknet::packet::{Addr, PackId, Packet};
use raknet::reassembly::Reassembler;
use raknet::resend_map::ResendMap;
use raknet::server::{Config, OfflineHandler, Outcome, Peer};
use raknet::unconnected::Packet as Unconnected;
use raknet::session::{can_send, close_step, CloseAction, CloseEvent, SessionState};
use raknet::{make_client_conf, make_server_conf};

fn plain_frame(body: &[u8]) -> Frame {
    Frame {
        flags: Flags::new(Reliability::Unreliable, false),
        reliable_frame_index: None,
        seq_frame_index: None,
        ordered: None,
        fragment: None,
        body: body.to_vec(),
    }
}

#[test]
fn test_resend_map_works() {
    let mut map = ResendMap::new();
    map.record(0, vec![], 0);
    map.record(1, vec![], 0);
    map.record(2, vec![], 0);
    map.record(3, vec![], 0);
    assert!(!map.is_empty());
    map.on_ack(AckOrNack::extend_from(&vec![0, 1, 2, 3], 100).unwrap());
    assert!(map.is_empty());

    map.record(4, vec![plain_frame(b"1")], 0);
    map.record(5, vec![plain_frame(b"2"), plain_frame(b"3")], 0);
    let mut buffer: VecDeque<Frame> = VecDeque::default();
    map.on_nack_into(AckOrNack::extend_from(&vec![4, 5], 100).unwrap(), &mut buffer);
    assert!(map.is_empty());
    assert_eq!(buffer.len(), 3);
    assert_eq!(buffer.pop_front().unwrap().body, b"1".to_vec());
    assert_eq!(buffer.pop_front().unwrap().body, b"2".to_vec());
    assert_eq!(buffer.pop_front().unwrap().body, b"3".to_vec());
}

#[test]
fn test_resend_map_stales() {
    let mut map = ResendMap::new();
    map.record(0, vec![], 0);
    map.record(1, vec![], 0);
    map.record(2, vec![], 0);
    map.record(3, vec![], 1200);
    let mut buffer: VecDeque<Frame> = VecDeque::default();
    map.process_stales(1200, &mut buffer);
    assert_eq!(map.len(), 1);
}

#[test]
fn test_resend_map_poll_wait() {
    let mut map = ResendMap::new();
    map.record(0, vec![], 0);
    map.record(1, vec![], 1200);
    map.record(2, vec![], 1200);
    map.record(3, vec![], 1200);

    let mut buffer: VecDeque<Frame> = VecDeque::default();

    // the first entry is already due: the caller should consume immediately
    assert_eq!(map.poll_wait(1200), None);

    map.process_stales(1200, &mut buffer);
    assert_eq!(map.len(), 3);

    // all remaining entries are due at 2200: a timer should be armed
    assert_eq!(map.poll_wait(1200), Some(2200));
    map.process_stales(2200, &mut buffer);
    assert!(map.len() < 3);
}

#[test]
fn test_resend_map_stale_at_deadline_exact() {
    let mut map = ResendMap::new();
    map.record(7, vec![plain_frame(b"x")], 0);
    // the entry expires at exactly 1000; a scan at that instant collects it
    let mut buffer: VecDeque<Frame> = VecDeque::default();
    map.process_stales(1000, &mut buffer);
    assert!(map.is_empty());
    assert_eq!(buffer.len(), 1);
}

fn offline_addr() -> Addr {
    Addr::V4 { ip: 0, port: 0 }
}

#[test]
fn test_offline_handshake_works() {
    let conf = Config::new()
        .sever_guid(1919810)
        .advertisement(b"hello".to_vec())
        .min_mtu(800)
        .max_mtu(1400)
        .support_version(vec![8, 11, 12])
        .max_pending(10);
    let mut handler = OfflineHandler::new(conf);
    let addr = offline_addr();

    let r = handler.handle_packet(
        Packet::Unconnected(Unconnected::UnconnectedPing { send_timestamp: 0, client_guid: 114514 }),
        addr,
    );
    assert_eq!(
        r,
        Outcome::Reply(Unconnected::UnconnectedPong {
            send_timestamp: 0,
            server_guid: 1919810,
            data: b"hello".to_vec(),
        })
    );

    let r = handler.handle_packet(
        Packet::Unconnected(Unconnected::OpenConnectionRequest1 { protocol_version: 11, mtu: 1000 }),
        addr,
    );
    assert_eq!(
        r,
        Outcome::Reply(Unconnected::OpenConnectionReply1 {
            server_guid: 1919810,
            use_encryption: false,
            mtu: 1000,
        })
    );

    let r = handler.handle_packet(
        Packet::Unconnected(Unconnected::OpenConnectionRequest2 {
            server_address: Addr::V4 { ip: 0, port: 1 },
            mtu: 1000,
            client_guid: 114514,
        }),
        addr,
    );
    assert_eq!(
        r,
        Outcome::Reply(Unconnected::OpenConnectionReply2 {
            server_guid: 1919810,
            client_address: addr,
            mtu: 1000,
            encryption_enabled: false,
        })
    );
}

#[test]
fn test_handshake_mtu_clamped() {
    // the negotiated MTU is the client's wish held to [min_mtu, max_mtu]
    let conf = make_server_conf();
    let mut handler = OfflineHandler::new(conf);
    let addr = offline_addr();
    let r = handler.handle_packet(
        Packet::Unconnected(Unconnected::OpenConnectionRequest1 { protocol_version: 11, mtu: 200 }),
        addr,
    );
    assert_eq!(
        r,
        Outcome::Reply(Unconnected::OpenConnectionReply1 {
            server_guid: 1919810,
            use_encryption: false,
            mtu: 510,
        })
    );
    let r = handler.handle_packet(
        Packet::Unconnected(Unconnected::OpenConnectionRequest1 { protocol_version: 11, mtu: 9000 }),
        addr,
    );
    assert_eq!(
        r,
        Outcome::Reply(Unconnected::OpenConnectionReply1 {
            server_guid: 1919810,
            use_encryption: false,
            mtu: 1500,
        })
    );
}

#[test]
fn test_version_mismatch_reply() {
    // protocol 7 is not in {9, 11, 13}: the reply offers the highest version
    let mut handler = OfflineHandler::new(make_server_conf());
    let addr = offline_addr();
    let r = handler.handle_packet(
        Packet::Unconnected(Unconnected::OpenConnectionRequest1 { protocol_version: 7, mtu: 1000 }),
        addr,
    );
    assert_eq!(
        r,
        Outcome::Reply(Unconnected::IncompatibleProtocol {
            server_protocol: 13,
            server_guid: 1919810,
        })
    );
}

#[test]
fn test_client_version_mismatch_fails() {
    let conf = make_client_conf();
    let server = Addr::V4 { ip: 1, port: 19132 };
    let state = ClientState::WaitingReply1;
    let reply = Unconnected::IncompatibleProtocol { server_protocol: 13, server_guid: 1919810 };
    let (state, out) = client_step(&conf, state, &reply, server);
    assert_eq!(
        state,
        ClientState::Failed { err: HandshakeError::IncompatibleProtocol { server_protocol: 13 } }
    );
    assert!(out.is_none());
}

#[test]
fn test_client_echoes_offered_mtu() {
    let conf = make_client_conf();
    let server = Addr::V4 { ip: 1, port: 19132 };
    let req1 = request1(&conf);
    assert_eq!(req1, Unconnected::OpenConnectionRequest1 { protocol_version: 11, mtu: 1000 });
    let reply1 = Unconnected::OpenConnectionReply1 {
        server_guid: 1919810,
        use_encryption: false,
        mtu: 1000,
    };
    let (state, out) = client_step(&conf, ClientState::WaitingReply1, &reply1, server);
    assert_eq!(state, ClientState::WaitingReply2 { mtu: 1000 });
    assert_eq!(
        out.unwrap(),
        Unconnected::OpenConnectionRequest2 { server_address: server, mtu: 1000, client_guid: 114514 }
    );
    let reply2 = Unconnected::OpenConnectionReply2 {
        server_guid: 1919810,
        client_address: Addr::V4 { ip: 7, port: 9 },
        mtu: 1000,
        encryption_enabled: false,
    };
    let (state, out) = client_step(&conf, state, &reply2, server);
    assert_eq!(state, ClientState::Connected { peer: Peer { addr: server, mtu: 1000 } });
    assert!(out.is_none());
}

#[test]
fn test_pending_eviction_rejects_request2() {
    // with room for two pending addresses, a third evicts the oldest, whose
    // later second request is then rejected
    let conf = make_server_conf().max_pending(2);
    let mut handler = OfflineHandler::new(conf);
    let a1 = Addr::V4 { ip: 1, port: 1 };
    let a2 = Addr::V4 { ip: 2, port: 2 };
    let a3 = Addr::V4 { ip: 3, port: 3 };
    for a in [a1, a2, a3] {
        handler.handle_packet(
            Packet::Unconnected(Unconnected::OpenConnectionRequest1 {
                protocol_version: 11,
                mtu: 1000,
            }),
            a,
        );
    }
    let r = handler.handle_packet(
        Packet::Unconnected(Unconnected::OpenConnectionRequest2 {
            server_address: offline_addr(),
            mtu: 1000,
            client_guid: 1,
        }),
        a1,
    );
    assert_eq!(
        r,
        Outcome::Reply(Unconnected::IncompatibleProtocol {
            server_protocol: 13,
            server_guid: 1919810,
        })
    );
    // the younger pending addresses survived
    let r = handler.handle_packet(
        Packet::Unconnected(Unconnected::OpenConnectionRequest2 {
            server_address: offline_addr(),
            mtu: 1000,
            client_guid: 2,
        }),
        a3,
    );
    assert_eq!(
        r,
        Outcome::Reply(Unconnected::OpenConnectionReply2 {
            server_guid: 1919810,
            client_address: a3,
            mtu: 1000,
            encryption_enabled: false,
        })
    );
}

#[test]
fn test_connected_packet_from_unknown_address() {
    let mut handler = OfflineHandler::new(make_server_conf());
    let r = handler.handle_packet(
        Packet::Connected(ConnectedPacket::FrameSet(FrameSet { seq_num: 0, frames: vec![] })),
        offline_addr(),
    );
    assert_eq!(
        r,
        Outcome::Reply(Unconnected::ConnectionRequestFailed { server_guid: 1919810 })
    );
}

#[test]
fn test_frame_set_round_trip() {
    let frames = vec![
        Frame {
            flags: Flags::new(Reliability::ReliableOrdered, false),
            reliable_frame_index: Some(5),
            seq_frame_index: None,
            ordered: Some(Ordered { frame_index: 2, channel: 0 }),
            fragment: None,
            body: b"hello world".to_vec(),
        },
        Frame {
            flags: Flags::new(Reliability::Reliable, true),
            reliable_frame_index: Some(6),
            seq_frame_index: None,
            ordered: None,
            fragment: Some(Fragment { parted_size: 4, parted_id: 9, parted_index: 1 }),
            body: vec![0xfe; 64],
        },
        plain_frame(b""),
    ];
    let fs = FrameSet { seq_num: 0x123456, frames };
    let mut buf: Vec<u8> = Vec::new();
    fs.write(&mut buf);
    let decoded = FrameSet::read(&buf, 0).unwrap();
    assert_eq!(decoded, fs);
}

#[test]
fn test_packet_round_trip_through_id_byte() {
    let fs = FrameSet { seq_num: 1, frames: vec![plain_frame(b"abc")] };
    let packet = Packet::Connected(ConnectedPacket::FrameSet(fs));
    let mut buf: Vec<u8> = Vec::new();
    packet.write(&mut buf);
    assert_eq!(buf[0], 0x80);
    let decoded = Packet::read(&buf).unwrap().unwrap();
    assert_eq!(decoded, packet);
}

#[test]
fn test_ack_packet_round_trip() {
    let ack = AckOrNack { records: vec![Record::Range(0, 3), Record::Single(7)] };
    let packet = Packet::Connected(ConnectedPacket::Ack(ack));
    let mut buf: Vec<u8> = Vec::new();
    packet.write(&mut buf);
    assert_eq!(buf[0], 0xc0);
    // record count, then a range (tag 0) and a single (tag 1)
    assert_eq!(&buf[1..3], &[0, 2]);
    let decoded = Packet::read(&buf).unwrap().unwrap();
    assert_eq!(decoded, packet);
}

#[test]
fn test_unconnected_ping_round_trip() {
    let ping = Packet::Unconnected(Unconnected::UnconnectedPing {
        send_timestamp: 0,
        client_guid: 114514,
    });
    let mut buf: Vec<u8> = Vec::new();
    ping.write(&mut buf);
    assert_eq!(buf.len(), 33);
    assert_eq!(buf[0], 0x01);
    let decoded = Packet::read(&buf).unwrap().unwrap();
    assert_eq!(decoded, ping);
}

#[test]
fn test_unconnected_pong_round_trip_v6_address() {
    let pong = Packet::Unconnected(Unconnected::UnconnectedPong {
        send_timestamp: 7,
        server_guid: 1919810,
        data: b"hello".to_vec(),
    });
    let mut buf: Vec<u8> = Vec::new();
    pong.write(&mut buf);
    assert_eq!(Packet::read(&buf).unwrap().unwrap(), pong);

    let reply2 = Packet::Unconnected(Unconnected::OpenConnectionReply2 {
        server_guid: 3,
        client_address: Addr::V6 { ip: 0x1234, port: 19132, flowinfo: 1, scope: 2 },
        mtu: 1200,
        encryption_enabled: false,
    });
    let mut buf: Vec<u8> = Vec::new();
    reply2.write(&mut buf);
    assert_eq!(Packet::read(&buf).unwrap().unwrap(), reply2);
}

#[test]
fn test_decode_errors() {
    // an empty datagram decodes to nothing
    assert_eq!(Packet::read(&vec![]).unwrap(), None);
    // 0x1e names no packet
    assert_eq!(Packet::read(&vec![0x1e]).unwrap_err(), CodecError::InvalidPacketId(0x1e));
    // a truncated ping is a length error
    assert_eq!(
        Packet::read(&vec![0x01, 0x00]).unwrap_err(),
        CodecError::InvalidPacketLength
    );
    // a ping whose magic is wrong reports the offset and the byte found
    let ping = Packet::Unconnected(Unconnected::UnconnectedPing {
        send_timestamp: 0,
        client_guid: 0,
    });
    let mut buf: Vec<u8> = Vec::new();
    ping.write(&mut buf);
    buf[9 + 2] = 0xaa;
    assert_eq!(Packet::read(&buf).unwrap_err(), CodecError::MagicNotMatched(2, 0xaa));
    // a frame whose reliability code is seven names no class
    assert_eq!(
        FrameSet::read(&vec![0, 0, 0, 0xe0, 0, 0], 0).unwrap_err(),
        CodecError::InvalidPacketId(0xe0)
    );
}

#[test]
fn test_pack_id_classification() {
    assert_eq!(PackId::from_u8(0x80).unwrap(), PackId::FrameSet);
    assert_eq!(PackId::from_u8(0x9f).unwrap(), PackId::FrameSet);
    assert_eq!(PackId::from_u8(0xa0).unwrap(), PackId::Nack);
    assert_eq!(PackId::from_u8(0xc0).unwrap(), PackId::Ack);
    assert_eq!(PackId::from_u8(0x1c).unwrap(), PackId::UnconnectedPong);
    assert_eq!(PackId::from_u8(0x0b).unwrap_err(), CodecError::InvalidPacketId(0x0b));
    assert!(PackId::UnconnectedPing1.is_unconnected_ping());
    assert!(PackId::UnconnectedPing2.is_unconnected_ping());
    assert!(PackId::FrameSet.is_frame_set());
    assert!(PackId::Ack.is_ack());
    assert!(PackId::Nack.is_nack());
}

#[test]
fn test_extend_from_coalesces() {
    let ack = AckOrNack::extend_from(&vec![0, 1, 2, 3], 100).unwrap();
    assert_eq!(ack.records, vec![Record::Range(0, 3)]);
    let ack = AckOrNack::extend_from(&vec![1, 3, 4, 5, 9], 100).unwrap();
    assert_eq!(
        ack.records,
        vec![Record::Single(1), Record::Range(3, 5), Record::Single(9)]
    );
    assert!(AckOrNack::extend_from(&vec![], 100).is_none());
}

#[test]
fn test_fragmented_echo_sizes() {
    // a large message fragments by MTU and reassembles to the same bytes
    for size in [256usize, 512, 1024, 2048, 4096] {
        let body: Vec<u8> = (0..size).map(|i| (i % 251) as u8).collect();
        let mut maker = FrameMaker::new();
        let frames = maker.make_frames(Reliability::ReliableOrdered, 0, body.clone(), 1000);
        let mut reassembler = Reassembler::new();
        let mut delivered: Option<Vec<u8>> = None;
        for f in &frames {
            match f.fragment {
                Some(fr) => {
                    let out = reassembler.insert(
                        fr.parted_id,
                        fr.parted_size,
                        fr.parted_index,
                        f.body.clone(),
                    );
                    if let Some(msg) = out {
                        delivered = Some(msg);
                    }
                },
                None => {
                    assert_eq!(frames.len(), 1);
                    delivered = Some(f.body.clone());
                },
            }
        }
        assert_eq!(delivered.unwrap(), body);
    }
}

#[test]
fn test_reassembler_rejects_mismatch_and_duplicates() {
    let mut r = Reassembler::new();
    assert!(r.insert(1, 3, 0, b"aa".to_vec()).is_none());
    // a different announced size for the same compound is discarded
    assert!(r.insert(1, 4, 1, b"xx".to_vec()).is_none());
    // a duplicate index is discarded
    assert!(r.insert(1, 3, 0, b"yy".to_vec()).is_none());
    assert!(r.insert(1, 3, 2, b"cc".to_vec()).is_none());
    let msg = r.insert(1, 3, 1, b"bb".to_vec()).unwrap();
    assert_eq!(msg, b"aabbcc".to_vec());
}

#[test]
fn test_sequenced_dedup() {
    // out of 1, 3, 2, 5 only the strictly-increasing 1, 3, 5 are delivered
    let mut ch = OrderChannel::new();
    assert!(ch.receive_sequenced(1));
    assert!(ch.receive_sequenced(3));
    assert!(!ch.receive_sequenced(2));
    assert!(ch.receive_sequenced(5));
    assert!(!ch.receive_sequenced(5));
}

#[test]
fn test_ordered_channel_releases_in_order() {
    let mut ch = OrderChannel::new();
    let released = ch.receive_ordered(0, plain_frame(b"a"));
    assert_eq!(released.len(), 1);
    assert_eq!(released[0].body, b"a".to_vec());
    // index 2 waits for index 1
    assert!(ch.receive_ordered(2, plain_frame(b"c")).is_empty());
    let released = ch.receive_ordered(1, plain_frame(b"b"));
    assert_eq!(released.len(), 2);
    assert_eq!(released[0].body, b"b".to_vec());
    assert_eq!(released[1].body, b"c".to_vec());
    // an index from the past is a duplicate and is dropped
    assert!(ch.receive_ordered(0, plain_frame(b"dup")).is_empty());
}

#[test]
fn test_duplicate_frame_set_acked_but_not_delivered() {
    // the same frame set twice: acknowledged both times, delivered once
    let mut acks = OutgoingAck::new();
    assert!(acks.record_seq(0));
    assert!(!acks.record_seq(0));
    let ack = acks.flush_ack(1000).unwrap();
    assert_eq!(ack.records, vec![Record::Single(0)]);
    // after the flush the cursor still refuses the old sequence number
    assert!(!acks.record_seq(0));
    assert!(acks.flush_ack(1000).unwrap().records == vec![Record::Single(0)]);
    assert!(acks.flush_ack(1000).is_none());
}

#[test]
fn test_outgoing_ack_coalesces_on_flush() {
    let mut acks = OutgoingAck::new();
    for seq in [0u32, 1, 2, 4] {
        acks.record_seq(seq);
    }
    let ack = acks.flush_ack(1000).unwrap();
    assert_eq!(ack.records, vec![Record::Range(0, 2), Record::Single(4)]);
    assert!(acks.flush_ack(1000).is_none());
}

#[test]
fn test_writer_assigns_monotone_indices() {
    let mut gen = raknet::online::SeqNumGen::new();
    assert_eq!(gen.assign(), 0);
    assert_eq!(gen.assign(), 1);
    let fs = gen.seal(vec![plain_frame(b"x")]);
    assert_eq!(fs.seq_num, 2);

    let mut maker = FrameMaker::new();
    let frames = maker.make_frames(Reliability::Reliable, 0, vec![0u8; 2500], 1000);
    assert_eq!(frames.len(), 3);
    for (i, f) in frames.iter().enumerate() {
        assert_eq!(f.reliable_frame_index, Some(i as u32));
        let fr = f.fragment.unwrap();
        assert_eq!(fr.parted_id, 0);
        assert_eq!(fr.parted_size, 3);
        assert_eq!(fr.parted_index, i as u32);
    }
    let frames = maker.make_frames(Reliability::Reliable, 0, vec![0u8; 10], 1000);
    assert_eq!(frames.len(), 1);
    assert_eq!(frames[0].reliable_frame_index, Some(3));
    assert!(frames[0].fragment.is_none());
}

#[test]
fn test_socket_addr_field_round_trip() {
    let mut buf: Vec<u8> = Vec::new();
    raknet::packet::put_socket_addr(&mut buf, Addr::V4 { ip: 0x7f000001, port: 19132 });
    assert_eq!(buf, vec![4, 0x7f, 0, 0, 1, 0x4a, 0xbc]);
    let (addr, end) = raknet::packet::get_socket_addr(&buf, 0).unwrap();
    assert_eq!(addr, Addr::V4 { ip: 0x7f000001, port: 19132 });
    assert_eq!(end, 7);

    let mut buf: Vec<u8> = Vec::new();
    let v6 = Addr::V6 { ip: 1, port: 2, flowinfo: 3, scope: 4 };
    raknet::packet::put_socket_addr(&mut buf, v6);
    let (addr, end) = raknet::packet::get_socket_addr(&buf, 0).unwrap();
    assert_eq!(addr, v6);
    assert_eq!(end, 29);

    assert_eq!(
        raknet::packet::get_socket_addr(&vec![5], 0).unwrap_err(),
        CodecError::InvalidIPVer(5)
    );
    let mut bad = vec![6u8; 29];
    bad[1] = 0;
    bad[2] = 0x18;
    assert_eq!(
        raknet::packet::get_socket_addr(&bad, 0).unwrap_err(),
        CodecError::InvalidIPV6Family(0x18)
    );
}

#[test]
fn test_disconnect_forgets_address() {
    let mut handler = OfflineHandler::new(make_server_conf());
    let addr = offline_addr();
    handler.handle_packet(
        Packet::Unconnected(Unconnected::OpenConnectionRequest1 { protocol_version: 11, mtu: 1000 }),
        addr,
    );
    handler.handle_packet(
        Packet::Unconnected(Unconnected::OpenConnectionRequest2 {
            server_address: offline_addr(),
            mtu: 1000,
            client_guid: 5,
        }),
        addr,
    );
    // connected now: connected-phase traffic is delivered
    let r = handler.handle_packet(
        Packet::Connected(ConnectedPacket::FrameSet(FrameSet { seq_num: 0, frames: vec![] })),
        addr,
    );
    assert!(matches!(r, Outcome::Deliver(_, Peer { mtu: 1000, .. })));
    handler.disconnect(addr);
    let r = handler.handle_packet(
        Packet::Connected(ConnectedPacket::FrameSet(FrameSet { seq_num: 0, frames: vec![] })),
        addr,
    );
    assert_eq!(
        r,
        Outcome::Reply(Unconnected::ConnectionRequestFailed { server_guid: 1919810 })
    );
}

#[test]
fn test_make_confs() {
    let s = make_server_conf();
    assert_eq!(s.sever_guid, 1919810);
    assert_eq!(s.support_version, vec![9, 11, 13]);
    assert_eq!((s.min_mtu, s.max_mtu), (510, 1500));
    let c = make_client_conf();
    assert_eq!(c.client_guid, 114514);
    assert_eq!((c.mtu, c.protocol_version), (1000, 11));
}

#[test]
fn test_client_fatal_replies() {
    let conf = make_client_conf();
    let server = Addr::V4 { ip: 1, port: 19132 };
    let (state, _) = client_step(
        &conf,
        ClientState::WaitingReply1,
        &Unconnected::AlreadyConnected { server_guid: 1 },
        server,
    );
    assert_eq!(state, ClientState::Failed { err: HandshakeError::AlreadyConnected });
    let (state, _) = client_step(
        &conf,
        ClientState::WaitingReply1,
        &Unconnected::ConnectionRequestFailed { server_guid: 1 },
        server,
    );
    assert_eq!(state, ClientState::Failed { err: HandshakeError::ConnectionRequestFailed });
}

fn ordered_frame(index: u32, body: &[u8]) -> Frame {
    Frame {
        flags: Flags::new(Reliability::ReliableOrdered, false),
        reliable_frame_index: Some(index),
        seq_frame_index: None,
        ordered: Some(Ordered { frame_index: index, channel: 0 }),
        fragment: None,
        body: body.to_vec(),
    }
}

#[test]
fn test_loss_and_retransmit_delivers_in_order() {
    // four reliable ordered messages; every second frame set is dropped on
    // the first transmission, then retransmitted after the timeout. The
    // receiver still delivers all four in submission order.
    let mut sender = ResendMap::new();
    let mut receiver_acks = OutgoingAck::new();
    let mut receiver_channel = OrderChannel::new();
    let bodies: [&[u8]; 4] = [b"m0", b"m1", b"m2", b"m3"];
    let mut delivered: Vec<Vec<u8>> = Vec::new();

    for (i, body) in bodies.iter().enumerate() {
        let seq = i as u32;
        let frame = ordered_frame(seq, body);
        sender.record(seq, vec![frame.clone()], 0);
        let lost = i % 2 == 1;
        if !lost && receiver_acks.record_seq(seq) {
            for f in receiver_channel.receive_ordered(seq, frame) {
                delivered.push(f.body);
            }
        }
    }
    assert_eq!(delivered, vec![b"m0".to_vec()]);

    // the receiver acknowledges what arrived; the sender forgets those
    let ack = receiver_acks.flush_ack(1000).unwrap();
    sender.on_ack(ack);
    assert_eq!(sender.len(), 2);

    // the timeout passes; the lost frames surface for retransmission
    let mut stale: VecDeque<Frame> = VecDeque::new();
    sender.process_stales(1000, &mut stale);
    assert!(sender.is_empty());
    let mut resent_seq = 4u32;
    for frame in stale {
        let seq = resent_seq;
        resent_seq += 1;
        sender.record(seq, vec![frame.clone()], 1000);
        if receiver_acks.record_seq(seq) {
            let idx = frame.ordered.unwrap().frame_index;
            for f in receiver_channel.receive_ordered(idx, frame) {
                delivered.push(f.body);
            }
        }
    }
    assert_eq!(
        delivered,
        vec![b"m0".to_vec(), b"m1".to_vec(), b"m2".to_vec(), b"m3".to_vec()]
    );

    // once everything is acknowledged the in-flight map is empty for good
    let ack = receiver_acks.flush_ack(1000).unwrap();
    sender.on_ack(ack);
    assert!(sender.is_empty());
}

#[test]
fn test_duplicate_frame_set_scenario() {
    // the same frame set injected twice: both arrivals are acknowledged,
    // the frames are delivered only once
    let mut acks = OutgoingAck::new();
    let mut channel = OrderChannel::new();
    let fs = FrameSet { seq_num: 0, frames: vec![ordered_frame(0, b"once")] };
    let mut delivered: Vec<Vec<u8>> = Vec::new();
    for _ in 0..2 {
        if fs.seq_num < 0x1000000 && acks.record_seq(fs.seq_num) {
            for frame in fs.frames.clone() {
                let idx = frame.ordered.unwrap().frame_index;
                for f in channel.receive_ordered(idx, frame) {
                    delivered.push(f.body);
                }
            }
        }
    }
    assert_eq!(delivered, vec![b"once".to_vec()]);
    let ack = acks.flush_ack(1000).unwrap();
    assert_eq!(ack.records, vec![Record::Single(0)]);
}

#[test]
fn test_nack_covers_gaps() {
    // sequence numbers 2 and 4 arrived, 0, 1 and 3 are missing below the
    // high-water mark and are coalesced into nack records
    let mut acks = OutgoingAck::new();
    acks.record_seq(2);
    acks.record_seq(4);
    let nack = acks.flush_nack(1000).unwrap();
    assert_eq!(nack.records, vec![Record::Range(0, 1), Record::Single(3)]);
    // once the gaps are filled there is nothing to complain about
    acks.record_seq(0);
    acks.record_seq(1);
    acks.record_seq(3);
    assert!(acks.flush_nack(1000).is_none());
}

#[test]
fn test_close_semantics() {
    // the side that receives the notification flushes and notifies back
    let (state, action) = close_step(SessionState::Established, CloseEvent::DisconnectReceived);
    assert_eq!((state, action), (SessionState::Closed, CloseAction::FlushAndNotify));
    // the side that initiates waits for the counterpart
    let (state, action) = close_step(SessionState::Established, CloseEvent::CloseRequested);
    assert_eq!((state, action), (SessionState::Closing, CloseAction::FlushAndNotify));
    let (state, action) = close_step(state, CloseEvent::DisconnectReceived);
    assert_eq!((state, action), (SessionState::Closed, CloseAction::Keep));
    // after the close, further sends are refused
    assert!(!can_send(state));
    let (state, _) = close_step(state, CloseEvent::CloseRequested);
    assert!(!can_send(state));
}

#[test]
fn test_channels_are_independent() {
    let mut chans = raknet::ordered::OrderedChannels::new();
    // each channel reorders on its own
    assert_eq!(chans.receive_ordered(0, 0, plain_frame(b"a")).len(), 1);
    assert!(chans.receive_ordered(1, 1, plain_frame(b"z")).is_empty());
    assert_eq!(chans.receive_ordered(1, 0, plain_frame(b"y")).len(), 2);
    // a channel beyond the last is refused
    assert!(chans.receive_ordered(32, 0, plain_frame(b"x")).is_empty());
    assert!(chans.receive_sequenced(0, 1));
    assert!(!chans.receive_sequenced(32, 1));
}

#[test]
fn test_ordered_indices_are_per_channel() {
    // ordered sends interleaved across channels: each channel's indices are
    // gap-free on their own
    let mut maker = FrameMaker::new();
    let a = maker.make_frames(Reliability::ReliableOrdered, 0, b"a".to_vec(), 1000);
    let b = maker.make_frames(Reliability::ReliableOrdered, 1, b"b".to_vec(), 1000);
    let c = maker.make_frames(Reliability::ReliableOrdered, 0, b"c".to_vec(), 1000);
    assert_eq!(a[0].ordered, Some(Ordered { frame_index: 0, channel: 0 }));
    assert_eq!(b[0].ordered, Some(Ordered { frame_index: 0, channel: 1 }));
    assert_eq!(c[0].ordered, Some(Ordered { frame_index: 1, channel: 0 }));
    // the receiver's channels release them without waiting on one another
    let mut chans = raknet::ordered::OrderedChannels::new();
    assert_eq!(chans.receive_ordered(0, 0, a.into_iter().next().unwrap()).len(), 1);
    assert_eq!(chans.receive_ordered(1, 0, b.into_iter().next().unwrap()).len(), 1);
    assert_eq!(chans.receive_ordered(0, 1, c.into_iter().next().unwrap()).len(), 1);
}

#[test]
fn test_writer_covers_all_reliability_classes() {
    let mut maker = FrameMaker::new();
    let f = maker.make_frames(Reliability::Unreliable, 0, b"u".to_vec(), 1000);
    assert_eq!(f[0].reliable_frame_index, None);
    assert_eq!(f[0].seq_frame_index, None);
    assert_eq!(f[0].ordered, None);
    // two sequenced sends: sequenced indices advance, the ordered index the
    // frames carry stays at the channel's current value
    let f = maker.make_frames(Reliability::UnreliableSequenced, 2, b"s0".to_vec(), 1000);
    assert_eq!(f[0].reliable_frame_index, None);
    assert_eq!(f[0].seq_frame_index, Some(0));
    assert_eq!(f[0].ordered, Some(Ordered { frame_index: 0, channel: 2 }));
    let f = maker.make_frames(Reliability::ReliableSequenced, 2, b"s1".to_vec(), 1000);
    assert_eq!(f[0].reliable_frame_index, Some(0));
    assert_eq!(f[0].seq_frame_index, Some(1));
    assert_eq!(f[0].ordered, Some(Ordered { frame_index: 0, channel: 2 }));
    // an ordered send on the same channel uses and then advances that index
    let f = maker.make_frames(Reliability::ReliableOrdered, 2, b"o".to_vec(), 1000);
    assert_eq!(f[0].reliable_frame_index, Some(1));
    assert_eq!(f[0].ordered, Some(Ordered { frame_index: 0, channel: 2 }));
    let f = maker.make_frames(Reliability::ReliableOrderedWithAckReceipt, 2, b"p".to_vec(), 1000);
    assert_eq!(f[0].ordered, Some(Ordered { frame_index: 1, channel: 2 }));
    let f = maker.make_frames(Reliability::ReliableWithAckReceipt, 0, b"r".to_vec(), 1000);
    assert_eq!(f[0].reliable_frame_index, Some(3));
    assert_eq!(f[0].ordered, None);
}
