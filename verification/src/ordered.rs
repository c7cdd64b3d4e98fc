//! Per-channel reorder state: gap-free ordered release and latest-wins
//! sequenced delivery.
use vstd::prelude::*;

use crate::assoc::{
    assoc_get, assoc_has, assoc_remove_key, assoc_unique, lemma_assoc_push, lemma_assoc_remove_key,
};
use crate::connected::Frame;

verus! {

/// Wrapping successor of a 24-bit index.
pub open spec fn seq_next_spec(v: u32) -> u32 {
    if v == 0xffffff {
        0u32
    } else {
        (v + 1) as u32
    }
}

/// Is `a` before `b` in sequence-distance order: the forward distance from
/// `a` to `b` is less than half the 24-bit space.
pub open spec fn seq_before(a: u32, b: u32) -> bool {
    ((b + 0x1000000 - a) % 0x1000000) < 0x800000
    && a != b
}

pub fn seq_next(v: u32) -> (r: u32)
    requires
        v < 0x1000000,
    ensures
        r == seq_next_spec(v),
        r < 0x1000000,
{
    if v == 0xffffff {
        0
    } else {
        v + 1
    }
}

pub fn seq_is_before(a: u32, b: u32) -> (r: bool)
    requires
        a < 0x1000000,
        b < 0x1000000,
    ensures
        r == seq_before(a, b),
{
    ((b + 0x1000000 - a) % 0x1000000) < 0x800000 && a != b
}

/// One sequenced-delivery step: a frame is delivered only when its index is
/// strictly above the highest seen, which it then becomes.
pub open spec fn sequenced_step(highest: u32, idx: u32) -> (u32, bool) {
    if seq_before(highest, idx) {
        (idx, true)
    } else {
        (highest, false)
    }
}

/// The indices a sequenced channel delivers out of a stream of incoming
/// indices, starting from the given high-water mark.
pub open spec fn sequenced_deliveries(highest: u32, stream: Seq<u32>) -> Seq<u32>
    decreases stream.len(),
{
    if stream.len() == 0 {
        Seq::empty()
    } else {
        let step = sequenced_step(highest, stream[0]);
        (if step.1 {
            seq![stream[0]]
        } else {
            Seq::empty()
        }) + sequenced_deliveries(step.0, stream.drop_first())
    }
}

/// Law: whatever the incoming stream, each delivered sequenced index is
/// strictly above the one delivered before it, and the first is strictly
/// above the initial high-water mark: only a strictly-increasing
/// subsequence is delivered.
pub proof fn lemma_sequenced_strictly_increasing(highest: u32, stream: Seq<u32>)
    ensures
        ({
            let out = sequenced_deliveries(highest, stream);
            &&& forall|i: int|
                0 <= i < out.len() - 1 ==> seq_before(#[trigger] out[i], out[i + 1])
            &&& out.len() > 0 ==> seq_before(highest, out[0])
        }),
    decreases stream.len(),
{
    if stream.len() > 0 {
        let step = sequenced_step(highest, stream[0]);
        let rest = sequenced_deliveries(step.0, stream.drop_first());
        lemma_sequenced_strictly_increasing(step.0, stream.drop_first());
        let out = sequenced_deliveries(highest, stream);
        if step.1 {
            assert(out[0] == stream[0]);
            assert(forall|i: int| 0 <= i < rest.len() ==> (#[trigger] out[i + 1]) == rest[i]);
            assert forall|i: int| 0 <= i < out.len() - 1 implies seq_before(
                #[trigger] out[i],
                out[i + 1],
            ) by {
                if i == 0 {
                    if rest.len() > 0 {
                        assert(out[1] == rest[0]);
                        assert(seq_before(step.0, rest[0]));
                    }
                } else {
                    assert(out[i] == rest[i - 1]);
                    assert(out[i + 1] == rest[i]);
                    assert(seq_before(rest[i - 1], rest[i - 1 + 1]));
                }
            }
        } else {
            assert(out =~= rest);
        }
    }
}

/// Reorder state of one ordered channel.
pub struct OrderChannel {
    /// The next ordered index owed to the consumer.
    pub expected: u32,
    /// Frames that arrived ahead of their turn, by ordered index.
    pub reorder: Vec<(u32, Frame)>,
    /// High-water mark of sequenced delivery on this channel.
    pub highest_seq: u32,
}

/// What draining the reorder buffer from `from` releases, and the state it
/// leaves: frames are released while the next expected index is present.
pub open spec fn drain_from(buf: Seq<(u32, Frame)>, from: u32, fuel: nat) -> (
    Seq<Frame>,
    Seq<(u32, Frame)>,
    u32,
)
    decreases fuel,
{
    if fuel == 0 || !assoc_has(buf, from) {
        (Seq::empty(), buf, from)
    } else {
        let f = assoc_get(buf, from);
        let r = drain_from(assoc_remove_key(buf, from), seq_next_spec(from), (fuel - 1) as nat);
        (seq![f] + r.0, r.1, r.2)
    }
}

/// The relation one ordered receive establishes between a channel's prior
/// and new state and the run it releases: a duplicate from the past changes
/// nothing; the expected index is released together with the run it
/// unblocks; a fresh future index is buffered; an index already buffered is
/// dropped.
pub open spec fn ordered_step_ok(
    pre: OrderChannel,
    post: OrderChannel,
    idx: u32,
    frame: Frame,
    r: Seq<Frame>,
) -> bool {
    &&& post.highest_seq == pre.highest_seq
    &&& ({
        let buf0 = pre.reorder@;
        let exp0 = pre.expected;
        if seq_before(idx, exp0) {
            r == Seq::<Frame>::empty() && post.reorder@ == buf0 && post.expected == exp0
        } else if idx == exp0 {
            ({
                let d = drain_from(buf0, seq_next_spec(exp0), buf0.len());
                r == seq![frame] + d.0 && post.reorder@ == d.1 && post.expected == d.2
            })
        } else if assoc_has(buf0, idx) {
            r == Seq::<Frame>::empty() && post.reorder@ == buf0 && post.expected == exp0
        } else {
            r == Seq::<Frame>::empty() && post.reorder@ == buf0.push((idx, frame)) && post.expected
                == exp0
        }
    })
}

impl OrderChannel {
    pub open spec fn wf(self) -> bool {
        &&& self.expected < 0x1000000
        &&& self.highest_seq < 0x1000000
        &&& assoc_unique(self.reorder@)
        &&& forall|i: int| 0 <= i < self.reorder@.len() ==> (#[trigger] self.reorder@[i]).0
            < 0x1000000
    }

    pub fn new() -> (r: OrderChannel)
        ensures
            r.wf(),
            r.expected == 0,
            r.highest_seq == 0,
            r.reorder@.len() == 0,
    {
        OrderChannel { expected: 0, reorder: Vec::new(), highest_seq: 0 }
    }

    /// Take in a sequenced frame's index: delivered only when strictly above
    /// the high-water mark, which it then becomes.
    pub fn receive_sequenced(&mut self, idx: u32) -> (r: bool)
        requires
            old(self).wf(),
            idx < 0x1000000,
        ensures
            final(self).wf(),
            (final(self).highest_seq, r) == sequenced_step(old(self).highest_seq, idx),
            final(self).expected == old(self).expected,
            final(self).reorder == old(self).reorder,
    {
        if seq_is_before(self.highest_seq, idx) {
            self.highest_seq = idx;
            true
        } else {
            false
        }
    }

    /// Take in an ordered frame: a duplicate from the past is dropped; the
    /// expected frame is released together with the run it unblocks; a
    /// frame from the future waits in the reorder buffer, unless its index
    /// is already there.
    pub fn receive_ordered(&mut self, idx: u32, frame: Frame) -> (r: Vec<Frame>)
        requires
            old(self).wf(),
            idx < 0x1000000,
        ensures
            final(self).wf(),
            ordered_step_ok(*old(self), *final(self), idx, frame, r@),
    {
        let mut released: Vec<Frame> = Vec::new();
        if seq_is_before(idx, self.expected) {
            return released;
        }
        if idx == self.expected {
            let ghost buf0 = self.reorder@;
            let ghost exp0 = self.expected;
            let ghost dt = drain_from(buf0, seq_next_spec(exp0), buf0.len());
            released.push(frame);
            self.expected = seq_next(self.expected);
            let mut fuel = self.reorder.len();
            proof {
                assert(released@ =~= seq![frame]);
                assert(seq![frame] + drain_from(
                    self.reorder@,
                    self.expected,
                    self.reorder@.len(),
                ).0 =~= seq![frame] + dt.0);
            }
            while fuel > 0
                invariant
                    self.wf(),
                    idx < 0x1000000,
                    self.highest_seq == old(self).highest_seq,
                    fuel == self.reorder@.len(),
                    buf0 == old(self).reorder@,
                    exp0 == old(self).expected,
                    dt == drain_from(buf0, seq_next_spec(exp0), buf0.len()),
                    idx == exp0,
                    released@ + drain_from(self.reorder@, self.expected, self.reorder@.len()).0
                        == seq![frame] + dt.0,
                    drain_from(self.reorder@, self.expected, self.reorder@.len()).1 == dt.1,
                    drain_from(self.reorder@, self.expected, self.reorder@.len()).2 == dt.2,
                decreases fuel,
            {
                let ghost bufc = self.reorder@;
                let ghost expc = self.expected;
                let ghost relc = released@;
                match self.position_of(self.expected) {
                    Some(i) => {
                        proof {
                            crate::assoc::lemma_assoc_at(bufc, i as int);
                            lemma_assoc_remove_key(bufc, expc);
                            let j = crate::assoc::assoc_idx(bufc, expc);
                            assert(bufc[j].0 == expc);
                            if j != i as int {
                                assert(bufc[j].0 != bufc[i as int].0 || bufc[i as int].0
                                    != bufc[j].0);
                            }
                            assert(j == i as int);
                        }
                        let pair = self.reorder.remove(i);
                        released.push(pair.1);
                        self.expected = seq_next(self.expected);
                        fuel = fuel - 1;
                        proof {
                            assert(self.reorder@ =~= bufc.remove(i as int));
                            assert(assoc_remove_key(bufc, expc) == bufc.remove(i as int));
                            assert(pair == bufc[i as int]);
                            assert(assoc_get(bufc, expc) == pair.1);
                            assert(assoc_has(bufc, expc));
                            assert(drain_from(bufc, expc, bufc.len()).0 == seq![pair.1]
                                + drain_from(self.reorder@, self.expected, self.reorder@.len()).0);
                            assert(released@ =~= relc.push(pair.1));
                            assert(relc.push(pair.1) + drain_from(
                                self.reorder@,
                                self.expected,
                                self.reorder@.len(),
                            ).0 =~= relc + (seq![pair.1] + drain_from(
                                self.reorder@,
                                self.expected,
                                self.reorder@.len(),
                            ).0));
                        }
                    },
                    None => {
                        proof {
                            if assoc_has(self.reorder@, self.expected) {
                                let j = crate::assoc::assoc_idx(self.reorder@, self.expected);
                                assert(self.reorder@[j].0 == self.expected);
                                assert(false);
                            }
                            assert(released@ + Seq::<Frame>::empty() =~= released@);
                        }
                        return released;
                    },
                }
            }
            proof {
                assert(!assoc_has(self.reorder@, self.expected)) by {
                    if assoc_has(self.reorder@, self.expected) {
                        let j = crate::assoc::assoc_idx(self.reorder@, self.expected);
                        assert(0 <= j < self.reorder@.len());
                    }
                }
                assert(released@ + Seq::<Frame>::empty() =~= released@);
            }
            released
        } else {
            match self.position_of(idx) {
                Some(i) => {
                    proof {
                        crate::assoc::lemma_assoc_at(self.reorder@, i as int);
                    }
                    released
                },
                None => {
                    proof {
                        if assoc_has(self.reorder@, idx) {
                            let j = crate::assoc::assoc_idx(self.reorder@, idx);
                            assert(self.reorder@[j].0 == idx);
                            assert(false);
                        }
                        lemma_assoc_push(self.reorder@, (idx, frame));
                    }
                    self.reorder.push((idx, frame));
                    released
                },
            }
        }
    }

    /// The index in the reorder buffer holding `idx`, if any.
    fn position_of(&self, idx: u32) -> (r: Option<usize>)
        ensures
            match r {
                Some(i) => i < self.reorder@.len() && self.reorder@[i as int].0 == idx,
                None => forall|j: int|
                    0 <= j < self.reorder@.len() ==> (#[trigger] self.reorder@[j]).0 != idx,
            },
    {
        let mut i: usize = 0;
        while i < self.reorder.len()
            invariant
                i <= self.reorder@.len(),
                forall|j: int| 0 <= j < i ==> (#[trigger] self.reorder@[j]).0 != idx,
            decreases self.reorder@.len() - i,
        {
            if self.reorder[i].0 == idx {
                return Some(i);
            }
            i = i + 1;
        }
        None
    }
}

/// The 32 independent ordering channels of one peer.
pub struct OrderedChannels {
    pub channels: Vec<OrderChannel>,
}

impl OrderedChannels {
    pub open spec fn wf(self) -> bool {
        &&& self.channels@.len() == 32
        &&& forall|c: int| 0 <= c < 32 ==> (#[trigger] self.channels@[c]).wf()
    }

    pub fn new() -> (r: OrderedChannels)
        ensures
            r.wf(),
            forall|c: int|
                0 <= c < 32 ==> (#[trigger] r.channels@[c]).expected == 0 && r.channels@[
                    c].highest_seq == 0 && r.channels@[c].reorder@.len() == 0,
    {
        let mut channels: Vec<OrderChannel> = Vec::new();
        let mut i: usize = 0;
        while i < 32
            invariant
                i == channels@.len(),
                i <= 32,
                forall|c: int|
                    0 <= c < i ==> (#[trigger] channels@[c]).wf() && channels@[c].expected == 0
                        && channels@[c].highest_seq == 0 && channels@[c].reorder@.len() == 0,
            decreases 32 - i,
        {
            channels.push(OrderChannel::new());
            i = i + 1;
        }
        OrderedChannels { channels }
    }

    /// Route an ordered frame to its channel; channels beyond the last are
    /// refused with an empty release.
    pub fn receive_ordered(&mut self, channel: u8, idx: u32, frame: Frame) -> (r: Vec<Frame>)
        requires
            old(self).wf(),
            idx < 0x1000000,
        ensures
            final(self).wf(),
            channel >= 32 ==> r@ == Seq::<Frame>::empty() && *final(self) == *old(self),
            channel < 32 ==> ordered_step_ok(
                old(self).channels@[channel as int],
                final(self).channels@[channel as int],
                idx,
                frame,
                r@,
            ) && (forall|c: int|
                0 <= c < 32 && c != channel ==> #[trigger] final(self).channels@[c] == old(
                    self,
                ).channels@[c]),
    {
        if channel >= 32 {
            return Vec::new();
        }
        let c = channel as usize;
        let ghost pre = self.channels@;
        let mut taken = OrderChannel::new();
        core::mem::swap(&mut self.channels[c], &mut taken);
        let released = taken.receive_ordered(idx, frame);
        core::mem::swap(&mut self.channels[c], &mut taken);
        proof {
            assert(forall|q: int|
                0 <= q < 32 && q != c as int ==> (#[trigger] self.channels@[q]) == pre[q]);
            assert(self.channels@[c as int].wf());
            assert(ordered_step_ok(pre[c as int], self.channels@[c as int], idx, frame,
            released@));
        }
        released
    }

    /// Route a sequenced frame's index to its channel; channels beyond the
    /// last drop the frame.
    pub fn receive_sequenced(&mut self, channel: u8, idx: u32) -> (r: bool)
        requires
            old(self).wf(),
            idx < 0x1000000,
        ensures
            final(self).wf(),
            channel >= 32 ==> r == false && *final(self) == *old(self),
            channel < 32 ==> ((final(self).channels@[channel as int].highest_seq, r)
                == sequenced_step(old(self).channels@[channel as int].highest_seq, idx) && (forall|
                c: int,
            |
                0 <= c < 32 && c != channel ==> #[trigger] final(self).channels@[c] == old(
                    self,
                ).channels@[c])),
    {
        if channel >= 32 {
            return false;
        }
        let c = channel as usize;
        let ghost pre = self.channels@;
        let mut taken = OrderChannel::new();
        core::mem::swap(&mut self.channels[c], &mut taken);
        let r = taken.receive_sequenced(idx);
        core::mem::swap(&mut self.channels[c], &mut taken);
        proof {
            assert(forall|q: int|
                0 <= q < 32 && q != c as int ==> (#[trigger] self.channels@[q]) == pre[q]);
            assert(self.channels@[c as int].wf());
        }
        r
    }
}

} // verus!
