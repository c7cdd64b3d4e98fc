//! In-flight reliable frame sets, keyed by outbound sequence number, waiting
//! for acknowledgement or for their retransmit deadline.
use vstd::prelude::*;
use std::collections::VecDeque;

use crate::ack::{ack_covers, AckOrNack, Record, record_covers};
use crate::assoc::{assoc_get, assoc_has, assoc_unique, lemma_assoc_at, lemma_assoc_push, lemma_assoc_remove};
use crate::connected::Frame;

verus! {

/// Frames carried together in one frame set.
pub type Frames = Vec<Frame>;

/// Retransmit timeout in milliseconds.
pub const RTO_MILLIS: u64 = 1000;

/// One in-flight frame set: its frames and the deadline after which it is
/// considered lost.
#[derive(Debug)]
pub struct ResendEntry {
    pub frames: Frames,
    pub expired_at: u64,
}

/// Mathematical image of an entry.
#[verifier::ext_equal]
pub ghost struct ResendEntryV {
    pub frames: Seq<Frame>,
    pub expired_at: u64,
}

impl View for ResendEntry {
    type V = ResendEntryV;

    open spec fn view(&self) -> ResendEntryV {
        ResendEntryV { frames: self.frames@, expired_at: self.expired_at }
    }
}

/// The entries left after removing every one whose key some record covers.
pub open spec fn drop_covered(s: Seq<(u32, ResendEntryV)>, recs: Seq<Record>) -> Seq<
    (u32, ResendEntryV),
>
    decreases s.len(),
{
    if s.len() == 0 {
        Seq::empty()
    } else if ack_covers(recs, s[0].0) {
        drop_covered(s.drop_first(), recs)
    } else {
        seq![s[0]] + drop_covered(s.drop_first(), recs)
    }
}

/// The frames of every covered entry, in entry order.
pub open spec fn covered_frames(s: Seq<(u32, ResendEntryV)>, recs: Seq<Record>) -> Seq<Frame>
    decreases s.len(),
{
    if s.len() == 0 {
        Seq::empty()
    } else if ack_covers(recs, s[0].0) {
        s[0].1.frames + covered_frames(s.drop_first(), recs)
    } else {
        covered_frames(s.drop_first(), recs)
    }
}

/// The entries left after removing every one already due at `now`.
pub open spec fn drop_stale(s: Seq<(u32, ResendEntryV)>, now: u64) -> Seq<(u32, ResendEntryV)>
    decreases s.len(),
{
    if s.len() == 0 {
        Seq::empty()
    } else if s[0].1.expired_at <= now {
        drop_stale(s.drop_first(), now)
    } else {
        seq![s[0]] + drop_stale(s.drop_first(), now)
    }
}

/// The frames of every entry already due at `now`, in entry order.
pub open spec fn stale_frames(s: Seq<(u32, ResendEntryV)>, now: u64) -> Seq<Frame>
    decreases s.len(),
{
    if s.len() == 0 {
        Seq::empty()
    } else if s[0].1.expired_at <= now {
        s[0].1.frames + stale_frames(s.drop_first(), now)
    } else {
        stale_frames(s.drop_first(), now)
    }
}

/// The least deadline among `s`, with `acc` as the bound already known.
pub open spec fn min_deadline(s: Seq<(u32, ResendEntryV)>, acc: u64) -> u64
    decreases s.len(),
{
    if s.len() == 0 {
        acc
    } else {
        min_deadline(
            s.drop_first(),
            if s[0].1.expired_at < acc {
                s[0].1.expired_at
            } else {
                acc
            },
        )
    }
}

/// When no entry is due, expiry processing changes nothing.
pub proof fn lemma_drop_stale_fresh(s: Seq<(u32, ResendEntryV)>, now: u64)
    requires
        forall|i: int| 0 <= i < s.len() ==> (#[trigger] s[i]).1.expired_at > now,
    ensures
        drop_stale(s, now) == s,
        stale_frames(s, now) == Seq::<Frame>::empty(),
    decreases s.len(),
{
    if s.len() > 0 {
        assert(forall|i: int|
            0 <= i < s.drop_first().len() ==> (#[trigger] s.drop_first()[i]) == s[i + 1]);
        lemma_drop_stale_fresh(s.drop_first(), now);
        assert(seq![s[0]] + s.drop_first() =~= s);
    }
}

/// Law: after acknowledgement ingestion, every covered sequence number is
/// gone, and every other entry is untouched.
pub proof fn lemma_drop_covered(s: Seq<(u32, ResendEntryV)>, recs: Seq<Record>)
    requires
        assoc_unique(s),
    ensures
        assoc_unique(drop_covered(s, recs)),
        forall|k: u32| ack_covers(recs, k) ==> !(#[trigger] assoc_has(drop_covered(s, recs), k)),
        forall|k: u32|
            !ack_covers(recs, k) ==> ((#[trigger] assoc_has(drop_covered(s, recs), k))
                == assoc_has(s, k) && (assoc_has(s, k) ==> assoc_get(drop_covered(s, recs), k)
                == assoc_get(s, k))),
    decreases s.len(),
{
    let d = drop_covered(s, recs);
    if s.len() == 0 {
        assert forall|k: u32| !(#[trigger] assoc_has(drop_covered(s, recs), k)) by {}
    } else {
        let rest = s.drop_first();
        assert(assoc_unique(rest)) by {
            assert(forall|i: int|
                0 <= i < rest.len() ==> (#[trigger] rest[i]) == s[i + 1]);
        }
        lemma_drop_covered(rest, recs);
        let dr = drop_covered(rest, recs);
        assert forall|k: u32| assoc_has(s, k) && !(k == s[0].0) implies assoc_has(rest, k)
            && assoc_get(rest, k) == assoc_get(s, k) by {
            let i = crate::assoc::assoc_idx(s, k);
            assert(s[i].0 == k);
            assert(rest[i - 1] == s[i]);
            lemma_assoc_at(rest, i - 1);
            lemma_assoc_at(s, i);
        }
        assert forall|k: u32| assoc_has(rest, k) implies assoc_has(s, k) && k != s[0].0
            && assoc_get(s, k) == assoc_get(rest, k) by {
            let i = crate::assoc::assoc_idx(rest, k);
            assert(rest[i].0 == k);
            assert(s[i + 1] == rest[i]);
            lemma_assoc_at(s, i + 1);
            lemma_assoc_at(rest, i);
            assert(s[0].0 != s[i + 1].0);
        }
        if ack_covers(recs, s[0].0) {
            assert(d == dr);
        } else {
            assert(d == seq![s[0]] + dr);
            assert(d[0] == s[0]);
            assert(forall|i: int| 0 <= i < dr.len() ==> (#[trigger] d[i + 1]) == dr[i]);
            assert(!assoc_has(dr, s[0].0));
            assert(d =~= dr.insert(0, s[0]));
            assert(dr.insert(0, s[0]) =~= seq![s[0]] + dr);
            assert forall|k: u32| #[trigger] assoc_has(d, k) implies (assoc_has(dr, k) || k
                == s[0].0) by {
                let i = crate::assoc::assoc_idx(d, k);
                if i > 0 {
                    assert(d[i] == dr[i - 1]);
                    lemma_assoc_at(dr, i - 1);
                }
            }
            assert forall|k: u32| (assoc_has(dr, k) || k == s[0].0) implies #[trigger] assoc_has(
                d,
                k,
            ) by {
                if assoc_has(dr, k) {
                    let i = crate::assoc::assoc_idx(dr, k);
                    assert(d[i + 1] == dr[i]);
                    assert(d[i + 1].0 == k);
                } else {
                    assert(d[0].0 == k);
                }
            }
            assert(assoc_unique(d)) by {
                assert forall|i: int, j: int| 0 <= i < j < d.len() implies (#[trigger] d[i]).0 != (
                #[trigger] d[j]).0 by {
                    if i == 0 {
                        assert(d[j] == dr[j - 1]);
                        lemma_assoc_at(dr, j - 1);
                        if d[0].0 == d[j].0 {
                            assert(assoc_has(dr, s[0].0));
                        }
                    } else {
                        assert(d[i] == dr[i - 1]);
                        assert(d[j] == dr[j - 1]);
                    }
                }
            }
            assert forall|k: u32| assoc_has(d, k) implies #[trigger] assoc_get(d, k) == (if k
                == s[0].0 {
                s[0].1
            } else {
                assoc_get(dr, k)
            }) by {
                let i = crate::assoc::assoc_idx(d, k);
                assert(d[i].0 == k);
                if i == 0 {
                    assert(k == s[0].0);
                    lemma_assoc_at(d, 0);
                } else {
                    assert(d[i] == dr[i - 1]);
                    lemma_assoc_at(dr, i - 1);
                    lemma_assoc_at(d, i);
                    if k == s[0].0 {
                        assert(assoc_has(dr, s[0].0));
                        assert(false);
                    }
                }
            }
        }
    }
}

/// Law: after expiry processing at `now`, every entry due at or before `now`
/// is gone — a deadline equal to `now` counts as stale — and every later
/// entry is untouched.
pub proof fn lemma_drop_stale(s: Seq<(u32, ResendEntryV)>, now: u64)
    requires
        assoc_unique(s),
    ensures
        assoc_unique(drop_stale(s, now)),
        forall|k: u32|
            assoc_has(s, k) && assoc_get(s, k).expired_at <= now ==> !(#[trigger] assoc_has(
                drop_stale(s, now),
                k,
            )),
        forall|k: u32|
            assoc_has(s, k) && assoc_get(s, k).expired_at > now ==> (#[trigger] assoc_has(
                drop_stale(s, now),
                k,
            )) && assoc_get(drop_stale(s, now), k) == assoc_get(s, k),
        forall|k: u32| (#[trigger] assoc_has(drop_stale(s, now), k)) ==> assoc_has(s, k),
        forall|i: int|
            0 <= i < drop_stale(s, now).len() ==> (#[trigger] drop_stale(s, now)[i]).1.expired_at
                > now,
    decreases s.len(),
{
    let d = drop_stale(s, now);
    if s.len() > 0 {
        let rest = s.drop_first();
        assert(assoc_unique(rest)) by {
            assert(forall|i: int| 0 <= i < rest.len() ==> (#[trigger] rest[i]) == s[i + 1]);
        }
        lemma_drop_stale(rest, now);
        let dr = drop_stale(rest, now);
        assert forall|k: u32| assoc_has(s, k) && !(k == s[0].0) implies assoc_has(rest, k)
            && assoc_get(rest, k) == assoc_get(s, k) by {
            let i = crate::assoc::assoc_idx(s, k);
            assert(s[i].0 == k);
            assert(rest[i - 1] == s[i]);
            lemma_assoc_at(rest, i - 1);
            lemma_assoc_at(s, i);
        }
        assert forall|k: u32| assoc_has(rest, k) implies assoc_has(s, k) && k != s[0].0
            && assoc_get(s, k) == assoc_get(rest, k) by {
            let i = crate::assoc::assoc_idx(rest, k);
            assert(rest[i].0 == k);
            assert(s[i + 1] == rest[i]);
            lemma_assoc_at(s, i + 1);
            lemma_assoc_at(rest, i);
            assert(s[0].0 != s[i + 1].0);
        }
        lemma_assoc_at(s, 0);
        if s[0].1.expired_at <= now {
            assert(d == dr);
        } else {
            assert(d == seq![s[0]] + dr);
            assert(d[0] == s[0]);
            assert(forall|i: int| 0 <= i < dr.len() ==> (#[trigger] d[i + 1]) == dr[i]);
            assert(!assoc_has(dr, s[0].0));
            assert forall|k: u32| #[trigger] assoc_has(d, k) implies (assoc_has(dr, k) || k
                == s[0].0) by {
                let i = crate::assoc::assoc_idx(d, k);
                if i > 0 {
                    assert(d[i] == dr[i - 1]);
                    lemma_assoc_at(dr, i - 1);
                }
            }
            assert forall|k: u32| (assoc_has(dr, k) || k == s[0].0) implies #[trigger] assoc_has(
                d,
                k,
            ) by {
                if assoc_has(dr, k) {
                    let i = crate::assoc::assoc_idx(dr, k);
                    assert(d[i + 1] == dr[i]);
                    assert(d[i + 1].0 == k);
                } else {
                    assert(d[0].0 == k);
                }
            }
            assert(assoc_unique(d)) by {
                assert forall|i: int, j: int| 0 <= i < j < d.len() implies (#[trigger] d[i]).0 != (
                #[trigger] d[j]).0 by {
                    if i == 0 {
                        assert(d[j] == dr[j - 1]);
                        lemma_assoc_at(dr, j - 1);
                        if d[0].0 == d[j].0 {
                            assert(assoc_has(dr, s[0].0));
                        }
                    } else {
                        assert(d[i] == dr[i - 1]);
                        assert(d[j] == dr[j - 1]);
                    }
                }
            }
            assert forall|k: u32| assoc_has(d, k) implies #[trigger] assoc_get(d, k) == (if k
                == s[0].0 {
                s[0].1
            } else {
                assoc_get(dr, k)
            }) by {
                let i = crate::assoc::assoc_idx(d, k);
                assert(d[i].0 == k);
                if i == 0 {
                    lemma_assoc_at(d, 0);
                } else {
                    assert(d[i] == dr[i - 1]);
                    lemma_assoc_at(dr, i - 1);
                    lemma_assoc_at(d, i);
                    if k == s[0].0 {
                        assert(assoc_has(dr, s[0].0));
                        assert(false);
                    }
                }
            }
        }
    }
}

/// The in-flight map. Keys are the outbound sequence numbers of transmitted
/// frame sets; the cache field is a lower bound on every deadline, used to
/// skip scans that cannot find a stale entry.
#[derive(Debug)]
pub struct ResendMap {
    pub entries: Vec<(u32, ResendEntry)>,
    pub last_record_expired_at: u64,
}

impl View for ResendMap {
    type V = Seq<(u32, ResendEntryV)>;

    open spec fn view(&self) -> Seq<(u32, ResendEntryV)> {
        self.entries@.map_values(|p: (u32, ResendEntry)| (p.0, p.1@))
    }
}

impl ResendMap {
    /// Keys are unique and the cache never exceeds any deadline.
    pub open spec fn wf(self) -> bool {
        &&& assoc_unique(self@)
        &&& forall|k: u32|
            assoc_has(self@, k) ==> self.last_record_expired_at <= assoc_get(
                self@,
                k,
            ).expired_at
    }

    pub fn new() -> (r: ResendMap)
        ensures
            r.wf(),
            r@.len() == 0,
            r.last_record_expired_at == 0,
    {
        ResendMap { entries: Vec::new(), last_record_expired_at: 0 }
    }

    /// The index holding `seq_num`, if any.
    fn position_of(&self, seq_num: u32) -> (r: Option<usize>)
        ensures
            match r {
                Some(i) => i < self@.len() && self@[i as int].0 == seq_num,
                None => !assoc_has(self@, seq_num),
            },
    {
        let mut i: usize = 0;
        while i < self.entries.len()
            invariant
                i <= self@.len(),
                forall|j: int| 0 <= j < i ==> (#[trigger] self@[j]).0 != seq_num,
            decreases self@.len() - i,
        {
            if self.entries[i].0 == seq_num {
                return Some(i);
            }
            i = i + 1;
        }
        None
    }

    /// Insert the frames of a just-transmitted frame set under its sequence
    /// number, due again one retransmit timeout from `now`; an entry already
    /// under that number is replaced. The deadline cache is lowered to the
    /// new deadline if that is earlier.
    pub fn record(&mut self, seq_num: u32, frames: Frames, now: u64)
        requires
            old(self).wf(),
            now + RTO_MILLIS <= u64::MAX,
        ensures
            final(self).wf(),
            final(self)@ == crate::assoc::assoc_remove_key(old(self)@, seq_num).push(
                (seq_num, ResendEntryV { frames: frames@, expired_at: (now + RTO_MILLIS) as u64 }),
            ),
            assoc_has(final(self)@, seq_num),
            assoc_get(final(self)@, seq_num) == (ResendEntryV {
                frames: frames@,
                expired_at: (now + RTO_MILLIS) as u64,
            }),
            forall|k: u32|
                k != seq_num ==> (#[trigger] assoc_has(final(self)@, k) == assoc_has(
                    old(self)@,
                    k,
                ) && (assoc_has(old(self)@, k) ==> assoc_get(final(self)@, k) == assoc_get(
                    old(self)@,
                    k,
                ))),
            final(self).last_record_expired_at == if old(self).last_record_expired_at <= now
                + RTO_MILLIS {
                old(self).last_record_expired_at
            } else {
                (now + RTO_MILLIS) as u64
            },
    {
        let deadline = now + RTO_MILLIS;
        let ghost mid: Seq<(u32, ResendEntryV)>;
        match self.position_of(seq_num) {
            Some(i) => {
                let ghost pre = self@;
                self.entries.remove(i);
                proof {
                    assert(self@ =~= pre.remove(i as int));
                    lemma_assoc_remove(pre, i as int);
                    let j = crate::assoc::assoc_idx(pre, seq_num);
                    assert(pre[i as int].0 == seq_num);
                    assert(assoc_has(pre, seq_num));
                    assert(pre[j].0 == seq_num);
                    if j != i as int {
                        if j < i as int {
                            assert(pre[j].0 != pre[i as int].0);
                        } else {
                            assert(pre[i as int].0 != pre[j].0);
                        }
                    }
                    assert(self@ == crate::assoc::assoc_remove_key(pre, seq_num));
                    mid = self@;
                }
            },
            None => {
                proof {
                    assert(!assoc_has(old(self)@, seq_num)) by {
                        if assoc_has(old(self)@, seq_num) {
                            let j = crate::assoc::assoc_idx(old(self)@, seq_num);
                            assert(old(self)@[j].0 == seq_num);
                            assert(self@[j].0 == seq_num);
                        }
                    }
                    assert(self@ == crate::assoc::assoc_remove_key(old(self)@, seq_num));
                    mid = self@;
                }
            },
        }
        let ghost before_push = self@;
        self.entries.push((seq_num, ResendEntry { frames, expired_at: deadline }));
        if deadline < self.last_record_expired_at {
            self.last_record_expired_at = deadline;
        }
        proof {
            assert(self@ =~= before_push.push(
                (seq_num, ResendEntryV { frames: frames@, expired_at: deadline }),
            ));
            lemma_assoc_push(
                before_push,
                (seq_num, ResendEntryV { frames: frames@, expired_at: deadline }),
            );
        }
    }

    /// Drop every entry whose sequence number an incoming acknowledgement
    /// covers; nothing is re-queued. Afterwards no acknowledged sequence
    /// number remains in the map.
    pub fn on_ack(&mut self, ack: AckOrNack)
        requires
            old(self).wf(),
        ensures
            final(self).wf(),
            final(self)@ == drop_covered(old(self)@, ack@),
            forall|k: u32| ack_covers(ack@, k) ==> !assoc_has(final(self)@, k),
            forall|k: u32|
                !ack_covers(ack@, k) ==> (#[trigger] assoc_has(final(self)@, k) == assoc_has(
                    old(self)@,
                    k,
                ) && (assoc_has(old(self)@, k) ==> assoc_get(final(self)@, k) == assoc_get(
                    old(self)@,
                    k,
                ))),
            final(self).last_record_expired_at == old(self).last_record_expired_at,
    {
        let ghost orig = self@;
        let mut drained: Vec<(u32, ResendEntry)> = Vec::new();
        core::mem::swap(&mut self.entries, &mut drained);
        proof {
            assert(self@ =~= Seq::<(u32, ResendEntryV)>::empty());
        }
        while drained.len() > 0
            invariant
                self.last_record_expired_at == old(self).last_record_expired_at,
                self@ + drop_covered(
                    drained@.map_values(|p: (u32, ResendEntry)| (p.0, p.1@)),
                    ack@,
                ) == drop_covered(orig, ack@),
            decreases drained@.len(),
        {
            let ghost dv = drained@.map_values(|p: (u32, ResendEntry)| (p.0, p.1@));
            let ghost keptv = self@;
            let pair = drained.remove(0);
            proof {
                assert(drained@.map_values(|p: (u32, ResendEntry)| (p.0, p.1@))
                    =~= dv.drop_first());
            }
            if covers(&ack, pair.0) {
                proof {
                    assert(drop_covered(dv, ack@) == drop_covered(dv.drop_first(), ack@));
                }
            } else {
                self.entries.push(pair);
                proof {
                    assert(self@ =~= keptv.push(dv[0]));
                    assert(drop_covered(dv, ack@) == seq![dv[0]] + drop_covered(
                        dv.drop_first(),
                        ack@,
                    ));
                    assert(keptv.push(dv[0]) + drop_covered(dv.drop_first(), ack@) =~= keptv + (
                    seq![dv[0]] + drop_covered(dv.drop_first(), ack@)));
                }
            }
        }
        proof {
            assert(drained@.map_values(|p: (u32, ResendEntry)| (p.0, p.1@)) =~= Seq::<
                (u32, ResendEntryV),
            >::empty());
            assert(self@ + Seq::<(u32, ResendEntryV)>::empty() =~= self@);
            lemma_drop_covered(orig, ack@);
            assert forall|k: u32| ack_covers(ack@, k) implies !assoc_has(self@, k) by {
                assert(!assoc_has(drop_covered(orig, ack@), k));
            }
            assert forall|k: u32| !ack_covers(ack@, k) implies (#[trigger] assoc_has(self@, k)
                == assoc_has(orig, k) && (assoc_has(orig, k) ==> assoc_get(self@, k) == assoc_get(
                orig,
                k,
            ))) by {
                assert(assoc_has(drop_covered(orig, ack@), k) == assoc_has(orig, k) && (assoc_has(
                    orig,
                    k,
                ) ==> assoc_get(drop_covered(orig, ack@), k) == assoc_get(orig, k)));
            }
            assert(assoc_unique(self@));
            assert forall|k: u32| assoc_has(self@, k) implies self.last_record_expired_at
                <= assoc_get(self@, k).expired_at by {
                if ack_covers(ack@, k) {
                    assert(!assoc_has(drop_covered(orig, ack@), k));
                } else {
                    assert(assoc_has(orig, k));
                }
            }
        }
    }

    /// Move the frames of every entry an incoming negative acknowledgement
    /// covers into `buffer` for retransmission, in entry order, and drop
    /// those entries.
    pub fn on_nack_into(&mut self, nack: AckOrNack, buffer: &mut VecDeque<Frame>)
        requires
            old(self).wf(),
        ensures
            final(self).wf(),
            final(self)@ == drop_covered(old(self)@, nack@),
            final(buffer)@ == old(buffer)@ + covered_frames(old(self)@, nack@),
            forall|k: u32| ack_covers(nack@, k) ==> !assoc_has(final(self)@, k),
            forall|k: u32|
                !ack_covers(nack@, k) ==> (#[trigger] assoc_has(final(self)@, k) == assoc_has(
                    old(self)@,
                    k,
                ) && (assoc_has(old(self)@, k) ==> assoc_get(final(self)@, k) == assoc_get(
                    old(self)@,
                    k,
                ))),
            final(self).last_record_expired_at == old(self).last_record_expired_at,
    {
        let ghost orig = self@;
        let ghost bufstart = buffer@;
        let mut drained: Vec<(u32, ResendEntry)> = Vec::new();
        core::mem::swap(&mut self.entries, &mut drained);
        proof {
            assert(self@ =~= Seq::<(u32, ResendEntryV)>::empty());
            assert(buffer@ =~= bufstart + Seq::<Frame>::empty());
        }
        while drained.len() > 0
            invariant
                self.last_record_expired_at == old(self).last_record_expired_at,
                self@ + drop_covered(
                    drained@.map_values(|p: (u32, ResendEntry)| (p.0, p.1@)),
                    nack@,
                ) == drop_covered(orig, nack@),
                buffer@ + covered_frames(
                    drained@.map_values(|p: (u32, ResendEntry)| (p.0, p.1@)),
                    nack@,
                ) == bufstart + covered_frames(orig, nack@),
            decreases drained@.len(),
        {
            let ghost dv = drained@.map_values(|p: (u32, ResendEntry)| (p.0, p.1@));
            let ghost keptv = self@;
            let mut pair = drained.remove(0);
            proof {
                assert(drained@.map_values(|p: (u32, ResendEntry)| (p.0, p.1@))
                    =~= dv.drop_first());
            }
            if covers(&nack, pair.0) {
                let ghost bufmid = buffer@;
                let ghost origf = pair.1.frames@;
                while pair.1.frames.len() > 0
                    invariant
                        bufmid + origf == buffer@ + pair.1.frames@,
                    decreases pair.1.frames@.len(),
                {
                    let ghost fv = pair.1.frames@;
                    let ghost bv = buffer@;
                    let f = pair.1.frames.remove(0);
                    buffer.push_back(f);
                    proof {
                        assert(pair.1.frames@ =~= fv.drop_first());
                        assert(buffer@ =~= bv.push(fv[0]));
                        assert(bv.push(fv[0]) + fv.drop_first() =~= bv + fv);
                    }
                }
                proof {
                    assert(pair.1.frames@ =~= Seq::<Frame>::empty());
                    assert(buffer@ + Seq::<Frame>::empty() =~= buffer@);
                    assert(buffer@ =~= bufmid + origf);
                    assert(covered_frames(dv, nack@) == dv[0].1.frames + covered_frames(
                        dv.drop_first(),
                        nack@,
                    ));
                    assert(drop_covered(dv, nack@) == drop_covered(dv.drop_first(), nack@));
                    assert(bufmid + (origf + covered_frames(dv.drop_first(), nack@)) =~= (bufmid
                        + origf) + covered_frames(dv.drop_first(), nack@));
                }
            } else {
                self.entries.push(pair);
                proof {
                    assert(self@ =~= keptv.push(dv[0]));
                    assert(drop_covered(dv, nack@) == seq![dv[0]] + drop_covered(
                        dv.drop_first(),
                        nack@,
                    ));
                    assert(covered_frames(dv, nack@) == covered_frames(dv.drop_first(), nack@));
                    assert(keptv.push(dv[0]) + drop_covered(dv.drop_first(), nack@) =~= keptv + (
                    seq![dv[0]] + drop_covered(dv.drop_first(), nack@)));
                }
            }
        }
        proof {
            assert(drained@.map_values(|p: (u32, ResendEntry)| (p.0, p.1@)) =~= Seq::<
                (u32, ResendEntryV),
            >::empty());
            assert(self@ + Seq::<(u32, ResendEntryV)>::empty() =~= self@);
            assert(buffer@ + Seq::<Frame>::empty() =~= buffer@);
            lemma_drop_covered(orig, nack@);
            assert forall|k: u32| ack_covers(nack@, k) implies !assoc_has(self@, k) by {
                assert(!assoc_has(drop_covered(orig, nack@), k));
            }
            assert forall|k: u32| !ack_covers(nack@, k) implies (#[trigger] assoc_has(self@, k)
                == assoc_has(orig, k) && (assoc_has(orig, k) ==> assoc_get(self@, k) == assoc_get(
                orig,
                k,
            ))) by {
                assert(assoc_has(drop_covered(orig, nack@), k) == assoc_has(orig, k) && (assoc_has(
                    orig,
                    k,
                ) ==> assoc_get(drop_covered(orig, nack@), k) == assoc_get(orig, k)));
            }
            assert(assoc_unique(self@));
            assert forall|k: u32| assoc_has(self@, k) implies self.last_record_expired_at
                <= assoc_get(self@, k).expired_at by {
                if ack_covers(nack@, k) {
                    assert(!assoc_has(drop_covered(orig, nack@), k));
                } else {
                    assert(assoc_has(orig, k));
                }
            }
        }
    }

    /// Collect the frames of every entry due at `now` into `buffer`, drop
    /// those entries, and cache the earliest remaining deadline. An entry
    /// whose deadline equals `now` counts as stale. When `now` is still
    /// before the cached bound the scan is skipped: no entry can be due.
    pub fn process_stales(&mut self, now: u64, buffer: &mut VecDeque<Frame>)
        requires
            old(self).wf(),
            now + RTO_MILLIS <= u64::MAX,
        ensures
            final(self).wf(),
            final(self)@ == drop_stale(old(self)@, now),
            final(buffer)@ == old(buffer)@ + stale_frames(old(self)@, now),
            forall|k: u32|
                assoc_has(old(self)@, k) && assoc_get(old(self)@, k).expired_at <= now
                    ==> !assoc_has(final(self)@, k),
            forall|k: u32|
                assoc_has(old(self)@, k) && assoc_get(old(self)@, k).expired_at > now
                    ==> assoc_has(final(self)@, k) && assoc_get(final(self)@, k) == assoc_get(
                    old(self)@,
                    k,
                ),
    {
        let ghost orig = self@;
        if now < self.last_record_expired_at {
            proof {
                assert forall|i: int| 0 <= i < orig.len() implies (#[trigger] orig[i]).1.expired_at
                    > now by {
                    lemma_assoc_at(orig, i);
                }
                lemma_drop_stale_fresh(orig, now);
                assert(buffer@ + Seq::<Frame>::empty() =~= buffer@);
                lemma_drop_stale(orig, now);
            }
            return;
        }
        let ghost bufstart = buffer@;
        let mut min_expired: u64 = now + RTO_MILLIS;
        let mut drained: Vec<(u32, ResendEntry)> = Vec::new();
        core::mem::swap(&mut self.entries, &mut drained);
        proof {
            assert(self@ =~= Seq::<(u32, ResendEntryV)>::empty());
            assert(buffer@ =~= bufstart + Seq::<Frame>::empty());
        }
        while drained.len() > 0
            invariant
                now + RTO_MILLIS <= u64::MAX,
                self@ + drop_stale(
                    drained@.map_values(|p: (u32, ResendEntry)| (p.0, p.1@)),
                    now,
                ) == drop_stale(orig, now),
                buffer@ + stale_frames(
                    drained@.map_values(|p: (u32, ResendEntry)| (p.0, p.1@)),
                    now,
                ) == bufstart + stale_frames(orig, now),
                min_deadline(
                    drop_stale(drained@.map_values(|p: (u32, ResendEntry)| (p.0, p.1@)), now),
                    min_expired,
                ) == min_deadline(drop_stale(orig, now), (now + RTO_MILLIS) as u64),
                forall|i: int|
                    0 <= i < self@.len() ==> min_expired <= (#[trigger] self@[i]).1.expired_at,
            decreases drained@.len(),
        {
            let ghost dv = drained@.map_values(|p: (u32, ResendEntry)| (p.0, p.1@));
            let ghost keptv = self@;
            let mut pair = drained.remove(0);
            proof {
                assert(drained@.map_values(|p: (u32, ResendEntry)| (p.0, p.1@))
                    =~= dv.drop_first());
            }
            if pair.1.expired_at <= now {
                let ghost bufmid = buffer@;
                let ghost origf = pair.1.frames@;
                while pair.1.frames.len() > 0
                    invariant
                        bufmid + origf == buffer@ + pair.1.frames@,
                    decreases pair.1.frames@.len(),
                {
                    let ghost fv = pair.1.frames@;
                    let ghost bv = buffer@;
                    let f = pair.1.frames.remove(0);
                    buffer.push_back(f);
                    proof {
                        assert(pair.1.frames@ =~= fv.drop_first());
                        assert(buffer@ =~= bv.push(fv[0]));
                        assert(bv.push(fv[0]) + fv.drop_first() =~= bv + fv);
                    }
                }
                proof {
                    assert(pair.1.frames@ =~= Seq::<Frame>::empty());
                    assert(buffer@ + Seq::<Frame>::empty() =~= buffer@);
                    assert(buffer@ =~= bufmid + origf);
                    assert(stale_frames(dv, now) == dv[0].1.frames + stale_frames(
                        dv.drop_first(),
                        now,
                    ));
                    assert(drop_stale(dv, now) == drop_stale(dv.drop_first(), now));
                    assert(bufmid + (origf + stale_frames(dv.drop_first(), now)) =~= (bufmid
                        + origf) + stale_frames(dv.drop_first(), now));
                }
            } else {
                if pair.1.expired_at < min_expired {
                    min_expired = pair.1.expired_at;
                }
                self.entries.push(pair);
                proof {
                    assert(self@ =~= keptv.push(dv[0]));
                    assert(drop_stale(dv, now) == seq![dv[0]] + drop_stale(
                        dv.drop_first(),
                        now,
                    ));
                    assert(stale_frames(dv, now) == stale_frames(dv.drop_first(), now));
                    assert(keptv.push(dv[0]) + drop_stale(dv.drop_first(), now) =~= keptv + (
                    seq![dv[0]] + drop_stale(dv.drop_first(), now)));
                    assert((seq![dv[0]] + drop_stale(dv.drop_first(), now)).drop_first()
                        =~= drop_stale(dv.drop_first(), now));
                }
            }
        }
        self.last_record_expired_at = min_expired;
        proof {
            assert(drained@.map_values(|p: (u32, ResendEntry)| (p.0, p.1@)) =~= Seq::<
                (u32, ResendEntryV),
            >::empty());
            assert(self@ + Seq::<(u32, ResendEntryV)>::empty() =~= self@);
            assert(buffer@ + Seq::<Frame>::empty() =~= buffer@);
            lemma_drop_stale(orig, now);
            assert forall|k: u32| assoc_has(self@, k) implies self.last_record_expired_at
                <= assoc_get(self@, k).expired_at by {
                let i = crate::assoc::assoc_idx(self@, k);
                assert(0 <= i < self@.len() && self@[i].0 == k);
            }
            assert forall|k: u32| assoc_has(orig, k) && assoc_get(orig, k).expired_at <= now
                implies !assoc_has(self@, k) by {
                assert(!assoc_has(drop_stale(orig, now), k));
            }
            assert forall|k: u32| assoc_has(orig, k) && assoc_get(orig, k).expired_at > now
                implies assoc_has(self@, k) && assoc_get(self@, k) == assoc_get(orig, k) by {
                assert(assoc_has(drop_stale(orig, now), k) && assoc_get(drop_stale(orig, now), k)
                    == assoc_get(orig, k));
            }
        }
    }

    /// What the retransmit task should do at `now`: wake immediately when
    /// the map is empty or some entry is already due, else arm a timer for
    /// the earliest deadline.
    pub fn poll_wait(&self, now: u64) -> (r: Option<u64>)
        ensures
            match r {
                None => self@.len() == 0 || exists|i: int|
                    0 <= i < self@.len() && (#[trigger] self@[i]).1.expired_at <= now,
                Some(d) => {
                    &&& exists|i: int|
                        0 <= i < self@.len() && (#[trigger] self@[i]).1.expired_at == d
                    &&& forall|i: int|
                        0 <= i < self@.len() ==> d <= (#[trigger] self@[i]).1.expired_at
                    &&& d > now
                },
            },
    {
        if self.entries.len() == 0 {
            return None;
        }
        let mut min_expired: u64 = self.entries[0].1.expired_at;
        proof {
            assert(self@[0].1.expired_at == min_expired);
        }
        let mut i: usize = 1;
        while i < self.entries.len()
            invariant
                1 <= i <= self@.len(),
                self@.len() == self.entries@.len(),
                exists|j: int|
                    0 <= j < self@.len() && (#[trigger] self@[j]).1.expired_at == min_expired,
                forall|j: int|
                    0 <= j < i ==> min_expired <= (#[trigger] self@[j]).1.expired_at,
            decreases self@.len() - i,
        {
            if self.entries[i].1.expired_at < min_expired {
                min_expired = self.entries[i].1.expired_at;
                proof {
                    assert(self@[i as int].1.expired_at == min_expired);
                }
            }
            i = i + 1;
        }
        if min_expired <= now {
            None
        } else {
            Some(min_expired)
        }
    }

    pub fn is_empty(&self) -> (r: bool)
        ensures
            r == (self@.len() == 0),
    {
        self.entries.len() == 0
    }

    pub fn len(&self) -> (r: usize)
        ensures
            r == self@.len(),
    {
        self.entries.len()
    }
}

/// Does any record of the batch cover `k`?
fn covers(ack: &AckOrNack, k: u32) -> (r: bool)
    ensures
        r == ack_covers(ack@, k),
{
    let mut i: usize = 0;
    while i < ack.records.len()
        invariant
            i <= ack@.len(),
            forall|j: int| 0 <= j < i ==> !record_covers(#[trigger] ack@[j], k),
        decreases ack@.len() - i,
    {
        let hit = match ack.records[i] {
            Record::Single(x) => x == k,
            Record::Range(s, e) => s <= k && k <= e,
        };
        if hit {
            proof {
                assert(record_covers(ack@[i as int], k));
            }
            return true;
        }
        i = i + 1;
    }
    false
}

} // verus!
