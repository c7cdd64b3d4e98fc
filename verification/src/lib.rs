//! A reliable, ordered, connection-oriented transport core over unreliable
//! datagrams, wire-compatible with the RakNet protocol: the frame-set codec,
//! the acknowledgement subsystem, the reliable-resend map, the fragment
//! reassembler, the per-channel reorder buffers, and the offline handshake
//! on both sides. The datagram socket, clocks and timers live outside; the
//! core consumes and produces plain values.
use vstd::prelude::*;

pub mod ack;
pub mod assoc;
pub mod buffer;
pub mod client;
pub mod connected;
pub mod errors;
pub mod online;
pub mod ordered;
pub mod outgoing_ack;
pub mod packet;
pub mod reassembly;
pub mod resend_map;
pub mod server;
pub mod session;
pub mod unconnected;

verus! {

/// The server configuration the end-to-end exercises run with.
pub fn make_server_conf() -> (r: server::Config)
    ensures
        r.send_buf_cap == 1024,
        r.sever_guid == 1919810,
        r.advertisement@ == seq![49u8, 50u8, 51u8, 52u8, 53u8, 54u8],
        r.max_mtu == 1500,
        r.min_mtu == 510,
        r.max_pending == 1024,
        r.support_version@ == seq![9u8, 11u8, 13u8],
        r.wf(),
{
    let advertisement = vec![49u8, 50u8, 51u8, 52u8, 53u8, 54u8];
    let support_version = vec![9u8, 11u8, 13u8];
    proof {
        assert(advertisement@ =~= seq![49u8, 50u8, 51u8, 52u8, 53u8, 54u8]);
        assert(support_version@ =~= seq![9u8, 11u8, 13u8]);
    }
    server::Config::new().send_buf_cap(1024).sever_guid(1919810).advertisement(advertisement)
        .max_mtu(1500).min_mtu(510).max_pending(1024).support_version(support_version)
}

/// The client configuration the end-to-end exercises run with.
pub fn make_client_conf() -> (r: client::Config)
    ensures
        r.send_buf_cap == 1024,
        r.mtu == 1000,
        r.client_guid == 114514,
        r.protocol_version == 11,
{
    client::Config::new().send_buf_cap(1024).mtu(1000).client_guid(114514).protocol_version(11)
}

} // verus!
