//! Writer side of the connected-phase pipeline: reliability tagging with
//! monotone indices, fragmentation by MTU, and outbound sequence numbers.
use vstd::prelude::*;

use crate::connected::{Flags, Frame, FrameSet, Fragment, Ordered, Reliability};
use crate::ordered::{seq_next, seq_next_spec};
use crate::reassembly::{chunks_cat, split_chunks};

verus! {

/// Bytes of frame header a worst-case frame costs beyond its body.
pub const FRAME_OVERHEAD: u16 = 21;

/// Assigns outbound frame-set sequence numbers: a gap-free increasing
/// sequence modulo the 24-bit space.
pub struct SeqNumGen {
    pub next: u32,
}

impl SeqNumGen {
    pub fn new() -> (r: SeqNumGen)
        ensures
            r.next == 0,
    {
        SeqNumGen { next: 0 }
    }

    /// The next outer sequence number; consecutive calls return consecutive
    /// values modulo the 24-bit space, whether the frames are first
    /// transmissions or retransmissions.
    pub fn assign(&mut self) -> (r: u32)
        requires
            old(self).next < 0x1000000,
        ensures
            r == old(self).next,
            final(self).next == seq_next_spec(old(self).next),
            final(self).next < 0x1000000,
    {
        let r = self.next;
        self.next = seq_next(self.next);
        r
    }

    /// Wrap frames under the next outer sequence number.
    pub fn seal(&mut self, frames: Vec<Frame>) -> (r: FrameSet)
        requires
            old(self).next < 0x1000000,
        ensures
            r.seq_num == old(self).next,
            r.frames == frames,
            final(self).next == seq_next_spec(old(self).next),
            final(self).next < 0x1000000,
    {
        let seq_num = self.assign();
        FrameSet { seq_num, frames }
    }
}

/// The 24-bit index `n` steps past `v`.
pub open spec fn seq_add_spec(v: u32, n: int) -> u32 {
    ((v + n) % 0x1000000) as u32
}

/// Advancing one step at a time agrees with adding: the successor of the
/// index `n` past `v` is the index `n + 1` past `v`.
pub proof fn lemma_seq_add_step(v: u32, n: int)
    requires
        v < 0x1000000,
        n >= 0,
    ensures
        seq_add_spec(v, 0) == v,
        seq_add_spec(v, n) < 0x1000000,
        seq_next_spec(seq_add_spec(v, n)) == seq_add_spec(v, n + 1),
{
    let m = 0x1000000int;
    vstd::arithmetic::div_mod::lemma_mod_bound(v + n, m);
    vstd::arithmetic::div_mod::lemma_mod_bound(v + n + 1, m);
    vstd::arithmetic::div_mod::lemma_fundamental_div_mod(v + n, m);
    let q = (v + n) / m;
    let x = (v + n) % m;
    if x == m - 1 {
        vstd::arithmetic::div_mod::lemma_fundamental_div_mod_converse(v + n + 1, m, q + 1, 0);
    } else {
        vstd::arithmetic::div_mod::lemma_fundamental_div_mod_converse(v + n + 1, m, q, x + 1);
    }
    vstd::arithmetic::div_mod::lemma_mod_bound(v + 0, m);
    vstd::arithmetic::div_mod::lemma_fundamental_div_mod_converse(v + 0, m, 0, v as int);
}

/// Per-peer writer counters: the reliable frame index advances one per
/// frame; the ordered and sequenced indices advance per message and per
/// channel.
pub struct FrameMaker {
    pub next_reliable_index: u32,
    pub next_parted_id: u16,
    pub ordered_indexes: Vec<u32>,
    pub sequenced_indexes: Vec<u32>,
}

impl FrameMaker {
    pub open spec fn wf(self) -> bool {
        &&& self.next_reliable_index < 0x1000000
        &&& self.ordered_indexes@.len() == 32
        &&& self.sequenced_indexes@.len() == 32
        &&& forall|c: int| 0 <= c < 32 ==> #[trigger] self.ordered_indexes@[c] < 0x1000000
        &&& forall|c: int| 0 <= c < 32 ==> #[trigger] self.sequenced_indexes@[c] < 0x1000000
    }

    pub fn new() -> (r: FrameMaker)
        ensures
            r.wf(),
            r.next_reliable_index == 0,
            r.next_parted_id == 0,
            forall|c: int| 0 <= c < 32 ==> #[trigger] r.ordered_indexes@[c] == 0,
            forall|c: int| 0 <= c < 32 ==> #[trigger] r.sequenced_indexes@[c] == 0,
    {
        let mut ordered_indexes: Vec<u32> = Vec::new();
        let mut sequenced_indexes: Vec<u32> = Vec::new();
        let mut i: usize = 0;
        while i < 32
            invariant
                i == ordered_indexes@.len(),
                i == sequenced_indexes@.len(),
                i <= 32,
                forall|c: int| 0 <= c < i ==> #[trigger] ordered_indexes@[c] == 0,
                forall|c: int| 0 <= c < i ==> #[trigger] sequenced_indexes@[c] == 0,
            decreases 32 - i,
        {
            ordered_indexes.push(0);
            sequenced_indexes.push(0);
            i = i + 1;
        }
        FrameMaker { next_reliable_index: 0, next_parted_id: 0, ordered_indexes, sequenced_indexes }
    }

    /// Turn one user message into wire frames of any reliability class: the
    /// body is split by the MTU's payload room; every fragment carries the
    /// same compound id and size with its own index; a reliable message's
    /// frames carry consecutive reliable indices; an ordered or sequenced
    /// message carries its channel's current ordered index on all its
    /// frames, a sequenced one also the channel's sequenced index; the
    /// counters advance per channel, and the bodies concatenate back to the
    /// message.
    pub fn make_frames(&mut self, reliability: Reliability, channel: u8, body: Vec<u8>, mtu: u16)
        -> (r: Vec<Frame>)
        requires
            old(self).wf(),
            mtu > FRAME_OVERHEAD,
            mtu <= 8212,
            body@.len() > 0,
            body@.len() <= 0xffffffff,
            channel < 32,
        ensures
            final(self).wf(),
            chunks_cat(r@.map_values(|f: Frame| f.body)) == body@,
            r@.len() >= 1,
            (forall|i: int| 0 <= i < r@.len() ==> (#[trigger] r@[i])@.wf()),
            (forall|i: int|
                0 <= i < r@.len() ==> (#[trigger] r@[i]).flags.reliability == reliability),
            (forall|i: int|
                0 <= i < r@.len() ==> (#[trigger] r@[i]).reliable_frame_index == (if reliability.is_reliable_spec() {
                    Some(seq_add_spec(old(self).next_reliable_index, i))
                } else {
                    None
                })),
            final(self).next_reliable_index == (if reliability.is_reliable_spec() {
                seq_add_spec(old(self).next_reliable_index, r@.len() as int)
            } else {
                old(self).next_reliable_index
            }),
            (forall|i: int|
                0 <= i < r@.len() ==> (#[trigger] r@[i]).ordered == (if reliability.is_sequenced_or_ordered_spec() {
                    Some(
                        Ordered {
                            frame_index: old(self).ordered_indexes@[channel as int],
                            channel,
                        },
                    )
                } else {
                    None
                })),
            final(self).ordered_indexes@ == (if reliability.is_sequenced_or_ordered_spec()
                && !reliability.is_sequenced_spec() {
                old(self).ordered_indexes@.update(
                    channel as int,
                    seq_next_spec(old(self).ordered_indexes@[channel as int]),
                )
            } else {
                old(self).ordered_indexes@
            }),
            (forall|i: int|
                0 <= i < r@.len() ==> (#[trigger] r@[i]).seq_frame_index == (if reliability.is_sequenced_spec() {
                    Some(old(self).sequenced_indexes@[channel as int])
                } else {
                    None
                })),
            final(self).sequenced_indexes@ == (if reliability.is_sequenced_spec() {
                old(self).sequenced_indexes@.update(
                    channel as int,
                    seq_next_spec(old(self).sequenced_indexes@[channel as int]),
                )
            } else {
                old(self).sequenced_indexes@
            }),
            r@.len() > 1 ==> forall|i: int|
                0 <= i < r@.len() ==> ((#[trigger] r@[i]).fragment matches Some(fr)
                    && fr.parted_id == old(self).next_parted_id && fr.parted_size == r@.len()
                    && fr.parted_index == i),
            r@.len() == 1 ==> r@[0].fragment is None,
            final(self).next_parted_id == (if r@.len() > 1 {
                (if old(self).next_parted_id == 0xffff {
                    0u16
                } else {
                    (old(self).next_parted_id + 1) as u16
                })
            } else {
                old(self).next_parted_id
            }),
    {
        let room: usize = (mtu - FRAME_OVERHEAD) as usize;
        let chunks = split_chunks(&body, room);
        proof {
            crate::reassembly::lemma_chunks_cat_len(chunks@);
        }
        let parted = chunks.len() > 1;
        let parted_size = chunks.len();
        let parted_id = self.next_parted_id;
        if parted {
            self.next_parted_id = if self.next_parted_id == 0xffff {
                0
            } else {
                self.next_parted_id + 1
            };
        }
        let rel = reliability.is_reliable();
        let seqd = reliability.is_sequenced();
        let is_ordered = reliability.is_sequenced_or_ordered();
        let c = channel as usize;
        let ordered_index = self.ordered_indexes[c];
        let sequenced_index = self.sequenced_indexes[c];
        let ghost ord0 = self.ordered_indexes@;
        let ghost seq0 = self.sequenced_indexes@;
        if is_ordered && !seqd {
            let mut bumped = seq_next(ordered_index);
            core::mem::swap(&mut self.ordered_indexes[c], &mut bumped);
            proof {
                assert(self.ordered_indexes@ =~= ord0.update(
                    c as int,
                    seq_next_spec(ordered_index),
                ));
            }
        }
        if seqd {
            let mut bumped = seq_next(sequenced_index);
            core::mem::swap(&mut self.sequenced_indexes[c], &mut bumped);
            proof {
                assert(self.sequenced_indexes@ =~= seq0.update(
                    c as int,
                    seq_next_spec(sequenced_index),
                ));
            }
        }
        let ghost rel_start = self.next_reliable_index;
        let mut frames: Vec<Frame> = Vec::new();
        let mut i: usize = 0;
        let ghost chunksv = chunks@;
        let mut rest = chunks;
        proof {
            assert(chunksv.take(0) =~= Seq::<Vec<u8>>::empty());
            assert(frames@.map_values(|f: Frame| f.body) =~= Seq::<Vec<u8>>::empty());
            lemma_seq_add_step(rel_start, 0);
        }
        while rest.len() > 0
            invariant
                self.wf(),
                room >= 1,
                room <= 8191,
                i + rest@.len() == chunksv.len(),
                i == frames@.len(),
                parted == (chunksv.len() > 1),
                parted_size == chunksv.len(),
                parted_size <= 0xffffffff,
                rel == reliability.is_reliable_spec(),
                seqd == reliability.is_sequenced_spec(),
                is_ordered == reliability.is_sequenced_or_ordered_spec(),
                channel < 32,
                c == channel as int,
                ordered_index == old(self).ordered_indexes@[c as int],
                sequenced_index == old(self).sequenced_indexes@[c as int],
                ordered_index < 0x1000000,
                sequenced_index < 0x1000000,
                parted_id == old(self).next_parted_id,
                rel_start == old(self).next_reliable_index,
                rel_start < 0x1000000,
                self.next_reliable_index == (if rel {
                    seq_add_spec(rel_start, i as int)
                } else {
                    rel_start
                }),
                self.ordered_indexes@ == (if is_ordered && !seqd {
                    old(self).ordered_indexes@.update(c as int, seq_next_spec(ordered_index))
                } else {
                    old(self).ordered_indexes@
                }),
                self.sequenced_indexes@ == (if seqd {
                    old(self).sequenced_indexes@.update(c as int, seq_next_spec(sequenced_index))
                } else {
                    old(self).sequenced_indexes@
                }),
                self.next_parted_id == (if parted {
                    (if parted_id == 0xffff {
                        0u16
                    } else {
                        (parted_id + 1) as u16
                    })
                } else {
                    parted_id
                }),
                (forall|j: int| 0 <= j < rest@.len() ==> (#[trigger] rest@[j]) == chunksv[i + j]),
                (forall|j: int| 0 <= j < chunksv.len() ==> (#[trigger] chunksv[j])@.len() <= room),
                (frames@.map_values(|f: Frame| f.body) =~= chunksv.take(i as int)),
                (forall|j: int| 0 <= j < frames@.len() ==> (#[trigger] frames@[j])@.wf()),
                (forall|j: int|
                    0 <= j < frames@.len() ==> (#[trigger] frames@[j]).flags.reliability
                        == reliability),
                (forall|j: int|
                    0 <= j < frames@.len() ==> (#[trigger] frames@[j]).reliable_frame_index == (
                    if rel {
                        Some(seq_add_spec(rel_start, j))
                    } else {
                        None
                    })),
                (forall|j: int|
                    0 <= j < frames@.len() ==> (#[trigger] frames@[j]).ordered == (if is_ordered {
                        Some(Ordered { frame_index: ordered_index, channel })
                    } else {
                        None
                    })),
                (forall|j: int|
                    0 <= j < frames@.len() ==> (#[trigger] frames@[j]).seq_frame_index == (
                    if seqd {
                        Some(sequenced_index)
                    } else {
                        None
                    })),
                (parted ==> forall|j: int|
                    0 <= j < frames@.len() ==> ((#[trigger] frames@[j]).fragment matches Some(fr)
                        && fr.parted_id == parted_id && fr.parted_size == chunksv.len()
                        && fr.parted_index == j)),
                (!parted ==> forall|j: int|
                    0 <= j < frames@.len() ==> (#[trigger] frames@[j]).fragment is None),
            decreases rest@.len(),
        {
            let ghost restv = rest@;
            let chunk_body = rest.remove(0);
            let fragment = if parted {
                Some(
                    Fragment {
                        parted_size: parted_size as u32,
                        parted_id,
                        parted_index: i as u32,
                    },
                )
            } else {
                None
            };
            let frame_ordered = if is_ordered {
                Some(Ordered { frame_index: ordered_index, channel })
            } else {
                None
            };
            let seq_frame_index = if seqd {
                Some(sequenced_index)
            } else {
                None
            };
            let reliable_frame_index = if rel {
                let cur = self.next_reliable_index;
                proof {
                    lemma_seq_add_step(rel_start, i as int);
                }
                self.next_reliable_index = seq_next(self.next_reliable_index);
                Some(cur)
            } else {
                None
            };
            let frame = Frame {
                flags: Flags { reliability, parted },
                reliable_frame_index,
                seq_frame_index,
                ordered: frame_ordered,
                fragment,
                body: chunk_body,
            };
            let ghost framesv = frames@;
            frames.push(frame);
            proof {
                assert(rest@ =~= restv.drop_first());
                assert(frames@ =~= framesv.push(frame));
                assert(frames@.map_values(|f: Frame| f.body) =~= framesv.map_values(
                    |f: Frame| f.body,
                ).push(chunk_body));
                assert(chunksv.take((i + 1) as int) =~= chunksv.take(i as int).push(
                    chunksv[i as int],
                ));
                assert(chunk_body == chunksv[i as int]);
                assert(frame@.wf());
            }
            i = i + 1;
        }
        proof {
            assert(chunksv.take(chunksv.len() as int) =~= chunksv);
        }
        frames
    }
}

} // verus!
