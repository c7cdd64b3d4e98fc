//! Server side of the offline handshake: per-address state from first
//! contact to a connected peer, with a bounded least-recently-used pending
//! table.
use vstd::prelude::*;

use crate::assoc::{
    assoc_get, assoc_has, assoc_remove_key, assoc_unique, lemma_assoc_at, lemma_assoc_front,
    lemma_assoc_push, lemma_assoc_remove_key,
};
use crate::connected;
use crate::packet::{Addr, Packet};
use crate::unconnected;

verus! {

/// Server handshake configuration.
#[derive(Debug, Clone)]
pub struct Config {
    pub send_buf_cap: usize,
    pub sever_guid: u64,
    pub advertisement: Vec<u8>,
    pub min_mtu: u16,
    pub max_mtu: u16,
    pub support_version: Vec<u8>,
    pub max_pending: usize,
}

impl Config {
    /// Sorted, non-empty protocol versions; a sane MTU window; room for at
    /// least one pending address.
    pub open spec fn wf(self) -> bool {
        &&& self.min_mtu <= self.max_mtu
        &&& self.support_version@.len() > 0
        &&& forall|i: int, j: int|
            0 <= i < j < self.support_version@.len() ==> #[trigger] self.support_version@[i]
                < #[trigger] self.support_version@[j]
        &&& self.max_pending >= 1
    }

    pub fn new() -> (r: Config)
        ensures
            r.send_buf_cap == 1024,
            r.sever_guid == 0,
            r.advertisement@.len() == 0,
            r.min_mtu == 510,
            r.max_mtu == 1500,
            r.support_version@ == seq![9u8, 11u8, 13u8],
            r.max_pending == 1024,
            r.wf(),
    {
        let support_version = vec![9u8, 11u8, 13u8];
        proof {
            assert(support_version@ =~= seq![9u8, 11u8, 13u8]);
        }
        Config {
            send_buf_cap: 1024,
            sever_guid: 0,
            advertisement: Vec::new(),
            min_mtu: 510,
            max_mtu: 1500,
            support_version,
            max_pending: 1024,
        }
    }

    pub fn send_buf_cap(self, v: usize) -> (r: Config)
        ensures
            r == (Config { send_buf_cap: v, ..self }),
    {
        Config { send_buf_cap: v, ..self }
    }

    pub fn sever_guid(self, v: u64) -> (r: Config)
        ensures
            r == (Config { sever_guid: v, ..self }),
    {
        Config { sever_guid: v, ..self }
    }

    pub fn advertisement(self, v: Vec<u8>) -> (r: Config)
        ensures
            r == (Config { advertisement: v, ..self }),
    {
        Config { advertisement: v, ..self }
    }

    pub fn min_mtu(self, v: u16) -> (r: Config)
        ensures
            r == (Config { min_mtu: v, ..self }),
    {
        Config { min_mtu: v, ..self }
    }

    pub fn max_mtu(self, v: u16) -> (r: Config)
        ensures
            r == (Config { max_mtu: v, ..self }),
    {
        Config { max_mtu: v, ..self }
    }

    pub fn support_version(self, v: Vec<u8>) -> (r: Config)
        ensures
            r == (Config { support_version: v, ..self }),
    {
        Config { support_version: v, ..self }
    }

    pub fn max_pending(self, v: usize) -> (r: Config)
        ensures
            r == (Config { max_pending: v, ..self }),
    {
        Config { max_pending: v, ..self }
    }
}

/// A connected remote counterpart: its address and the negotiated MTU.
#[derive(Debug, Clone, Copy, PartialEq, Eq, Structural)]
pub struct Peer {
    pub addr: Addr,
    pub mtu: u16,
}

/// The pending table's key for an address, packed injectively into two
/// machine words: the tag and scalar fields in the first, the IP in the
/// second.
pub open spec fn addr_key_spec(a: Addr) -> (u128, u128) {
    match a {
        Addr::V4 { ip, port } => (
            (4u128 * 0x1000000000000000000000000 + port as u128) as u128,
            ip as u128,
        ),
        Addr::V6 { ip, port, flowinfo, scope } => (
            (6u128 * 0x1000000000000000000000000 + flowinfo as u128 * 0x10000000000000000
                + scope as u128 * 0x100000000 + port as u128) as u128,
            ip,
        ),
    }
}

pub fn addr_key(a: Addr) -> (r: (u128, u128))
    ensures
        r == addr_key_spec(a),
{
    match a {
        Addr::V4 { ip, port } => (4u128 * 0x1000000000000000000000000 + port as u128, ip as u128),
        Addr::V6 { ip, port, flowinfo, scope } => (
            6u128 * 0x1000000000000000000000000 + (flowinfo as u128) * 0x10000000000000000 + (
            scope as u128) * 0x100000000 + port as u128,
            ip,
        ),
    }
}

/// The entries of a pending table, most recently used first. Two calls on
/// equal tables agree: the order is the list order the cache maintains.
pub uninterp spec fn lru_entries(c: &lru::LruCache<(u128, u128), u8>) -> Seq<((u128, u128), u8)>;

/// The capacity the pending table was created with.
pub uninterp spec fn lru_cap(c: &lru::LruCache<(u128, u128), u8>) -> int;

#[verifier::external_type_specification]
#[verifier::external_body]
pub struct ExDefaultHasher(lru::DefaultHasher);

#[verifier::external_type_specification]
#[verifier::external_body]
#[verifier::reject_recursive_types(K)]
#[verifier::reject_recursive_types(V)]
#[verifier::reject_recursive_types(S)]
pub struct ExLruCache<K, V, S>(lru::LruCache<K, V, S>);

/// Relies on lru::LruCache::new: a fresh cache is empty and holds at most
/// `cap` entries.
#[verifier::external_body]
fn lru_new(cap: usize) -> (r: lru::LruCache<(u128, u128), u8>)
    requires
        cap >= 1,
    ensures
        lru_entries(&r) == Seq::<((u128, u128), u8)>::empty(),
        lru_cap(&r) == cap,
{
    lru::LruCache::new(std::num::NonZeroUsize::new(cap).unwrap())
}

/// Relies on lru::LruCache::put: an existing key is updated in place, moved
/// to the front and its old value returned; a fresh key is inserted at the
/// front, silently evicting the least-recently-used entry when the cache is
/// full.
#[verifier::external_body]
fn lru_put(c: &mut lru::LruCache<(u128, u128), u8>, k: (u128, u128), v: u8) -> (r: Option<u8>)
    ensures
        lru_cap(final(c)) == lru_cap(old(c)),
        match r {
            Some(old_v) => {
                &&& assoc_has(lru_entries(old(c)), k)
                &&& old_v == assoc_get(lru_entries(old(c)), k)
                &&& lru_entries(final(c)) == seq![(k, v)] + assoc_remove_key(
                    lru_entries(old(c)),
                    k,
                )
            },
            None => {
                &&& !assoc_has(lru_entries(old(c)), k)
                &&& lru_entries(final(c)) == seq![(k, v)] + (if lru_entries(old(c)).len()
                    == lru_cap(old(c)) {
                    lru_entries(old(c)).drop_last()
                } else {
                    lru_entries(old(c))
                })
            },
        },
{
    c.put(k, v)
}

/// Relies on lru::LruCache::pop: the entry under the key is removed and its
/// value returned; the other entries keep their order.
#[verifier::external_body]
fn lru_pop(c: &mut lru::LruCache<(u128, u128), u8>, k: &(u128, u128)) -> (r: Option<u8>)
    ensures
        lru_cap(final(c)) == lru_cap(old(c)),
        lru_entries(final(c)) == assoc_remove_key(lru_entries(old(c)), *k),
        match r {
            Some(v) => assoc_has(lru_entries(old(c)), *k) && v == assoc_get(
                lru_entries(old(c)),
                *k,
            ),
            None => !assoc_has(lru_entries(old(c)), *k),
        },
{
    c.pop(k)
}

/// Law: when the pending table is full and a fresh address arrives, its
/// least-recently-used entry is evicted; the newcomer and every younger
/// entry survive, and the table stays at capacity.
pub proof fn lemma_pending_eviction(
    pend0: Seq<((u128, u128), u8)>,
    k: (u128, u128),
    protocol_version: u8,
    max_pending: int,
)
    requires
        assoc_unique(pend0),
        pend0.len() == max_pending,
        max_pending >= 1,
        !assoc_has(pend0, k),
    ensures
        ({
            let pend1 = pending_after_request1(pend0, k, protocol_version, max_pending);
            &&& pend1.len() == max_pending
            &&& !assoc_has(pend1, pend0.last().0)
            &&& assoc_has(pend1, k)
            &&& assoc_get(pend1, k) == protocol_version
            &&& forall|a: (u128, u128)|
                a != pend0.last().0 && a != k ==> ((#[trigger] assoc_has(pend1, a)) == assoc_has(
                    pend0,
                    a,
                ) && (assoc_has(pend0, a) ==> assoc_get(pend1, a) == assoc_get(pend0, a)))
        }),
{
    let dropped = pend0.drop_last();
    let pend1 = pending_after_request1(pend0, k, protocol_version, max_pending);
    assert(pend1 == seq![(k, protocol_version)] + dropped);
    assert(forall|i: int| 0 <= i < dropped.len() ==> (#[trigger] dropped[i]) == pend0[i]);
    assert(assoc_unique(dropped));
    assert(!assoc_has(dropped, k)) by {
        if assoc_has(dropped, k) {
            let j = crate::assoc::assoc_idx(dropped, k);
            assert(dropped[j].0 == k);
            lemma_assoc_at(pend0, j);
        }
    }
    lemma_assoc_front(dropped, (k, protocol_version));
    let evicted = pend0.last().0;
    assert(pend0[pend0.len() - 1].0 == evicted);
    assert(evicted != k) by {
        lemma_assoc_at(pend0, pend0.len() - 1);
    }
    assert(!assoc_has(dropped, evicted)) by {
        if assoc_has(dropped, evicted) {
            let j = crate::assoc::assoc_idx(dropped, evicted);
            assert(dropped[j].0 == evicted);
            assert(pend0[j].0 != pend0[pend0.len() - 1].0);
        }
    }
    assert(!assoc_has(pend1, evicted));
    assert forall|a: (u128, u128)| a != evicted && a != k implies ((#[trigger] assoc_has(
        pend1,
        a,
    )) == assoc_has(pend0, a) && (assoc_has(pend0, a) ==> assoc_get(pend1, a) == assoc_get(
        pend0,
        a,
    ))) by {
        assert(assoc_has(pend1, a) == (assoc_has(dropped, a) || a == k));
        if assoc_has(pend0, a) {
            let j = crate::assoc::assoc_idx(pend0, a);
            assert(pend0[j].0 == a);
            assert(j != pend0.len() - 1) by {
                lemma_assoc_at(pend0, pend0.len() - 1);
            }
            assert(dropped[j].0 == a);
            lemma_assoc_at(dropped, j);
            lemma_assoc_at(pend0, j);
        }
        if assoc_has(dropped, a) {
            let j = crate::assoc::assoc_idx(dropped, a);
            assert(dropped[j].0 == a);
            lemma_assoc_at(pend0, j);
        }
    }
}

/// What one inbound packet makes the handler do.
#[derive(Debug, PartialEq)]
pub enum Outcome {
    /// A connected-phase packet from a connected address: hand it on with
    /// its peer.
    Deliver(connected::Packet, Peer),
    /// Send this unconnected packet back to the sender.
    Reply(unconnected::Packet),
    /// Drop the packet silently.
    Ignore,
}

/// Mathematical image of an outcome.
#[verifier::ext_equal]
pub ghost enum OutcomeView {
    Deliver(connected::PacketView, Peer),
    Reply(unconnected::PacketView),
    Ignore,
}

impl View for Outcome {
    type V = OutcomeView;

    open spec fn view(&self) -> OutcomeView {
        match self {
            Outcome::Deliver(c, p) => OutcomeView::Deliver(c@, *p),
            Outcome::Reply(u) => OutcomeView::Reply(u@),
            Outcome::Ignore => OutcomeView::Ignore,
        }
    }
}

/// The MTU the server answers with: the client's wish, held to the
/// configured window.
pub open spec fn clamp_mtu(cfg: Config, mtu: u16) -> u16 {
    if mtu < cfg.min_mtu {
        cfg.min_mtu
    } else if mtu > cfg.max_mtu {
        cfg.max_mtu
    } else {
        mtu
    }
}

/// Law: with a sane window the negotiated MTU always lies inside it, and a
/// wish already inside the window is granted unchanged.
pub proof fn lemma_clamp_in_range(cfg: Config, mtu: u16)
    requires
        cfg.min_mtu <= cfg.max_mtu,
    ensures
        cfg.min_mtu <= clamp_mtu(cfg, mtu) <= cfg.max_mtu,
        cfg.min_mtu <= mtu <= cfg.max_mtu ==> clamp_mtu(cfg, mtu) == mtu,
{
}

/// The pending table after an accepted first open-connection request from
/// the address keyed `k`: the address moves to the front; when the table was
/// full and the address fresh, the least-recently-used entry is evicted.
pub open spec fn pending_after_request1(
    pend0: Seq<((u128, u128), u8)>,
    k: (u128, u128),
    protocol_version: u8,
    max_pending: int,
) -> Seq<((u128, u128), u8)> {
    seq![(k, protocol_version)] + (if assoc_has(pend0, k) {
        assoc_remove_key(pend0, k)
    } else if pend0.len() >= max_pending {
        pend0.drop_last()
    } else {
        pend0
    })
}

/// The offline handshake state machine on the server side.
pub struct OfflineHandler {
    pub config: Config,
    pub pending: lru::LruCache<(u128, u128), u8>,
    pub connected: Vec<(Addr, u16)>,
}

impl OfflineHandler {
    pub open spec fn wf(self) -> bool {
        &&& self.config.wf()
        &&& assoc_unique(lru_entries(&self.pending))
        &&& lru_entries(&self.pending).len() <= self.config.max_pending
        &&& lru_cap(&self.pending) == self.config.max_pending
        &&& assoc_unique(self.connected@)
    }

    pub fn new(config: Config) -> (r: OfflineHandler)
        requires
            config.wf(),
        ensures
            r.wf(),
            r.config == config,
            lru_entries(&r.pending).len() == 0,
            r.connected@.len() == 0,
    {
        let pending = lru_new(config.max_pending);
        OfflineHandler { config, pending, connected: Vec::new() }
    }

    /// Forget an address entirely.
    pub fn disconnect(&mut self, addr: Addr)
        requires
            old(self).wf(),
        ensures
            final(self).wf(),
            final(self).config == old(self).config,
            lru_entries(&final(self).pending) == assoc_remove_key(
                lru_entries(&old(self).pending),
                addr_key_spec(addr),
            ),
            !assoc_has(final(self).connected@, addr),
            forall|a: Addr|
                a != addr ==> ((#[trigger] assoc_has(final(self).connected@, a)) == assoc_has(
                    old(self).connected@,
                    a,
                ) && (assoc_has(old(self).connected@, a) ==> assoc_get(final(self).connected@, a)
                    == assoc_get(old(self).connected@, a))),
    {
        let key = addr_key(addr);
        let _ = lru_pop(&mut self.pending, &key);
        proof {
            lemma_assoc_remove_key(lru_entries(&old(self).pending), addr_key_spec(addr));
        }
        let ghost oldc = self.connected@;
        match self.connected_position(addr) {
            Some(i) => {
                self.connected.remove(i);
                proof {
                    crate::assoc::lemma_assoc_remove(oldc, i as int);
                    assert(self.connected@ =~= oldc.remove(i as int));
                    assert forall|a: Addr| a != addr implies ((#[trigger] assoc_has(
                        self.connected@,
                        a,
                    )) == assoc_has(oldc, a) && (assoc_has(oldc, a) ==> assoc_get(
                        self.connected@,
                        a,
                    ) == assoc_get(oldc, a))) by {
                        assert(assoc_has(oldc.remove(i as int), a) == assoc_has(oldc, a) && (
                        assoc_has(oldc, a) ==> assoc_get(oldc.remove(i as int), a) == assoc_get(
                            oldc,
                            a,
                        )));
                    }
                }
            },
            None => {
                proof {
                    if assoc_has(self.connected@, addr) {
                        let j = crate::assoc::assoc_idx(self.connected@, addr);
                        assert(self.connected@[j].0 == addr);
                        assert(false);
                    }
                }
            },
        }
    }

    /// Answer one inbound packet: the whole per-packet step of the server's
    /// handshake loop. Connected-phase traffic from a connected address is
    /// handed on with its peer; handshake packets advance the per-address
    /// state and earn their reply; anything else is dropped.
    pub fn handle_packet(&mut self, packet: Packet, addr: Addr) -> (r: Outcome)
        requires
            old(self).wf(),
        ensures
            final(self).wf(),
            final(self).config == old(self).config,
            ({
                let pend0 = lru_entries(&old(self).pending);
                let conn0 = old(self).connected@;
                let pend1 = lru_entries(&final(self).pending);
                let conn1 = final(self).connected@;
                let cfg = old(self).config;
                let k = addr_key_spec(addr);
                match packet@ {
                    crate::packet::PacketView::Connected(c) => pend1 == pend0 && conn1 == conn0
                        && (if assoc_has(conn0, addr) {
                        r@ == OutcomeView::Deliver(
                            c,
                            Peer { addr, mtu: assoc_get(conn0, addr) },
                        )
                    } else {
                        r@ == OutcomeView::Reply(
                            unconnected::PacketView::ConnectionRequestFailed {
                                server_guid: cfg.sever_guid,
                            },
                        )
                    }),
                    crate::packet::PacketView::Unconnected(u) => match u {
                        unconnected::PacketView::UnconnectedPing { send_timestamp, .. } => pend1
                            == pend0 && conn1 == conn0 && r@ == OutcomeView::Reply(
                            unconnected::PacketView::UnconnectedPong {
                                send_timestamp,
                                server_guid: cfg.sever_guid,
                                data: cfg.advertisement@,
                            },
                        ),
                        unconnected::PacketView::OpenConnectionRequest1 {
                            protocol_version,
                            mtu,
                        } => conn1 == conn0 && (if !cfg.support_version@.contains(
                            protocol_version,
                        ) {
                            pend1 == pend0 && r@ == OutcomeView::Reply(
                                unconnected::PacketView::IncompatibleProtocol {
                                    server_protocol: cfg.support_version@.last(),
                                    server_guid: cfg.sever_guid,
                                },
                            )
                        } else {
                            pend1 == pending_after_request1(
                                pend0,
                                k,
                                protocol_version,
                                cfg.max_pending as int,
                            ) && r@ == OutcomeView::Reply(
                                unconnected::PacketView::OpenConnectionReply1 {
                                    server_guid: cfg.sever_guid,
                                    use_encryption: false,
                                    mtu: clamp_mtu(cfg, mtu),
                                },
                            )
                        }),
                        unconnected::PacketView::OpenConnectionRequest2 { mtu, .. } => pend1
                            == assoc_remove_key(pend0, k) && (if !assoc_has(pend0, k) {
                            conn1 == conn0 && r@ == OutcomeView::Reply(
                                unconnected::PacketView::IncompatibleProtocol {
                                    server_protocol: cfg.support_version@.last(),
                                    server_guid: cfg.sever_guid,
                                },
                            )
                        } else if mtu < cfg.min_mtu || mtu > cfg.max_mtu || assoc_has(
                            conn0,
                            addr,
                        ) {
                            conn1 == conn0 && r@ == OutcomeView::Reply(
                                unconnected::PacketView::AlreadyConnected {
                                    server_guid: cfg.sever_guid,
                                },
                            )
                        } else {
                            conn1 == conn0.push((addr, mtu)) && r@ == OutcomeView::Reply(
                                unconnected::PacketView::OpenConnectionReply2 {
                                    server_guid: cfg.sever_guid,
                                    client_address: addr,
                                    mtu,
                                    encryption_enabled: false,
                                },
                            )
                        }),
                        _ => pend1 == pend0 && conn1 == conn0 && r@ == OutcomeView::Ignore,
                    },
                }
            }),
    {
        match packet {
            Packet::Connected(c) => match self.connected_position(addr) {
                Some(i) => {
                    let mtu = self.connected[i].1;
                    proof {
                        lemma_assoc_at(self.connected@, i as int);
                    }
                    Outcome::Deliver(c, Peer { addr, mtu })
                },
                None => {
                    proof {
                        if assoc_has(self.connected@, addr) {
                            let j = crate::assoc::assoc_idx(self.connected@, addr);
                            assert(self.connected@[j].0 == addr);
                            assert(false);
                        }
                    }
                    Outcome::Reply(
                        unconnected::Packet::ConnectionRequestFailed {
                            server_guid: self.config.sever_guid,
                        },
                    )
                },
            },
            Packet::Unconnected(u) => match u {
                unconnected::Packet::UnconnectedPing { send_timestamp, .. } => {
                    let data = crate::buffer::copy_range(
                        &self.config.advertisement,
                        0,
                        self.config.advertisement.len(),
                    );
                    proof {
                        assert(data@ =~= self.config.advertisement@);
                    }
                    Outcome::Reply(
                        unconnected::Packet::UnconnectedPong {
                            send_timestamp,
                            server_guid: self.config.sever_guid,
                            data,
                        },
                    )
                },
                unconnected::Packet::OpenConnectionRequest1 { protocol_version, mtu } => {
                    if !self.version_supported(protocol_version) {
                        let last = self.config.support_version[self.config.support_version.len()
                            - 1];
                        Outcome::Reply(
                            unconnected::Packet::IncompatibleProtocol {
                                server_protocol: last,
                                server_guid: self.config.sever_guid,
                            },
                        )
                    } else {
                        let key = addr_key(addr);
                        let ghost pend0 = lru_entries(&self.pending);
                        let prev = lru_put(&mut self.pending, key, protocol_version);
                        proof {
                            match prev {
                                Some(_) => {
                                    lemma_assoc_remove_key(pend0, key);
                                    lemma_assoc_front(
                                        assoc_remove_key(pend0, key),
                                        (key, protocol_version),
                                    );
                                },
                                None => {
                                    if pend0.len() >= self.config.max_pending {
                                        assert(forall|i: int|
                                            0 <= i < pend0.drop_last().len() ==> (
                                            #[trigger] pend0.drop_last()[i]) == pend0[i]);
                                        assert(assoc_unique(pend0.drop_last()));
                                        if assoc_has(pend0.drop_last(), key) {
                                            let j = crate::assoc::assoc_idx(
                                                pend0.drop_last(),
                                                key,
                                            );
                                            assert(pend0.drop_last()[j].0 == key);
                                            lemma_assoc_at(pend0, j);
                                            assert(false);
                                        }
                                        lemma_assoc_front(
                                            pend0.drop_last(),
                                            (key, protocol_version),
                                        );
                                    } else {
                                        lemma_assoc_front(pend0, (key, protocol_version));
                                    }
                                },
                            }
                        }
                        let final_mtu = if mtu < self.config.min_mtu {
                            self.config.min_mtu
                        } else if mtu > self.config.max_mtu {
                            self.config.max_mtu
                        } else {
                            mtu
                        };
                        Outcome::Reply(
                            unconnected::Packet::OpenConnectionReply1 {
                                server_guid: self.config.sever_guid,
                                use_encryption: false,
                                mtu: final_mtu,
                            },
                        )
                    }
                },
                unconnected::Packet::OpenConnectionRequest2 { mtu, .. } => {
                    let key = addr_key(addr);
                    let ghost pend0 = lru_entries(&self.pending);
                    let popped = lru_pop(&mut self.pending, &key);
                    proof {
                        lemma_assoc_remove_key(pend0, key);
                    }
                    match popped {
                        None => {
                            let last = self.config.support_version[self.config.support_version.len()
                                - 1];
                            Outcome::Reply(
                                unconnected::Packet::IncompatibleProtocol {
                                    server_protocol: last,
                                    server_guid: self.config.sever_guid,
                                },
                            )
                        },
                        Some(_) => {
                            let already = match self.connected_position(addr) {
                                Some(_) => true,
                                None => false,
                            };
                            proof {
                                if !already && assoc_has(self.connected@, addr) {
                                    let j = crate::assoc::assoc_idx(self.connected@, addr);
                                    assert(self.connected@[j].0 == addr);
                                    assert(false);
                                }
                                if already {
                                    let i = crate::assoc::assoc_idx(self.connected@, addr);
                                }
                            }
                            if mtu < self.config.min_mtu || mtu > self.config.max_mtu || already {
                                proof {
                                    if already {
                                        assert(assoc_has(self.connected@, addr));
                                    }
                                }
                                Outcome::Reply(
                                    unconnected::Packet::AlreadyConnected {
                                        server_guid: self.config.sever_guid,
                                    },
                                )
                            } else {
                                proof {
                                    lemma_assoc_push(self.connected@, (addr, mtu));
                                }
                                self.connected.push((addr, mtu));
                                Outcome::Reply(
                                    unconnected::Packet::OpenConnectionReply2 {
                                        server_guid: self.config.sever_guid,
                                        client_address: addr,
                                        mtu,
                                        encryption_enabled: false,
                                    },
                                )
                            }
                        },
                    }
                },
                _ => Outcome::Ignore,
            },
        }
    }

    /// Is this protocol version in the supported set?
    fn version_supported(&self, v: u8) -> (r: bool)
        ensures
            r == self.config.support_version@.contains(v),
    {
        let mut i: usize = 0;
        while i < self.config.support_version.len()
            invariant
                i <= self.config.support_version@.len(),
                forall|j: int| 0 <= j < i ==> (#[trigger] self.config.support_version@[j]) != v,
            decreases self.config.support_version@.len() - i,
        {
            if self.config.support_version[i] == v {
                proof {
                    assert(self.config.support_version@[i as int] == v);
                }
                return true;
            }
            i = i + 1;
        }
        proof {
            if self.config.support_version@.contains(v) {
                let j = choose|j: int|
                    0 <= j < self.config.support_version@.len()
                        && self.config.support_version@[j] == v;
                assert(self.config.support_version@[j] == v);
            }
        }
        false
    }

    /// The index of a connected address, if any.
    fn connected_position(&self, addr: Addr) -> (r: Option<usize>)
        ensures
            match r {
                Some(i) => i < self.connected@.len() && self.connected@[i as int].0 == addr,
                None => forall|j: int|
                    0 <= j < self.connected@.len() ==> (#[trigger] self.connected@[j]).0 != addr,
            },
    {
        let mut i: usize = 0;
        while i < self.connected.len()
            invariant
                i <= self.connected@.len(),
                forall|j: int| 0 <= j < i ==> (#[trigger] self.connected@[j]).0 != addr,
            decreases self.connected@.len() - i,
        {
            if self.connected[i].0 == addr {
                return Some(i);
            }
            i = i + 1;
        }
        None
    }
}

} // verus!
