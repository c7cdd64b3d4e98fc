//! Receive-side bookkeeping: which frame sets arrived, which were already
//! seen, and the acknowledgement records a flush emits.
use vstd::prelude::*;

use crate::ack::{ack_record_cap, AckOrNack, Record, records_of_from, run_end};
use crate::ordered::{seq_before, seq_is_before, seq_next, seq_next_spec};

verus! {

/// How many sequence numbers a batch of records covers.
pub open spec fn records_span(recs: Seq<Record>) -> int
    decreases recs.len(),
{
    if recs.len() == 0 {
        0
    } else {
        (match recs[0] {
            Record::Single(_) => 1int,
            Record::Range(a, b) => b - a + 1,
        }) + records_span(recs.drop_first())
    }
}

pub proof fn lemma_records_span_push(recs: Seq<Record>, r: Record)
    ensures
        records_span(recs.push(r)) == records_span(recs) + (match r {
            Record::Single(_) => 1int,
            Record::Range(a, b) => b - a + 1,
        }),
    decreases recs.len(),
{
    if recs.len() == 0 {
        let sp = recs.push(r);
        assert(sp[0] == r);
        assert(sp.drop_first() =~= Seq::<Record>::empty());
        assert(records_span(Seq::<Record>::empty()) == 0);
        assert(records_span(recs) == 0);
    } else {
        assert(recs.push(r).drop_first() =~= recs.drop_first().push(r));
        lemma_records_span_push(recs.drop_first(), r);
        assert(recs.push(r)[0] == recs[0]);
    }
}

/// The sequence numbers of the half-open range `lo..hi`.
pub open spec fn gaps_between(lo: int, hi: int) -> Seq<u32>
    decreases hi - lo,
    when lo <= hi
{
    if lo >= hi {
        Seq::empty()
    } else {
        seq![lo as u32] + gaps_between(lo + 1, hi)
    }
}

/// The sequence numbers missing below the high-water mark: every value from
/// `lo` up to the last received one that was not itself received.
pub open spec fn missing_of(s: Seq<u32>, lo: int) -> Seq<u32>
    decreases s.len(),
{
    if s.len() == 0 {
        Seq::empty()
    } else if s[0] < lo {
        missing_of(s.drop_first(), lo)
    } else {
        gaps_between(lo, s[0] as int) + missing_of(s.drop_first(), s[0] + 1)
    }
}

/// Tracks received frame-set sequence numbers between flushes, with the
/// cursor of contiguous delivery.
pub struct OutgoingAck {
    /// Sequence numbers received and not yet acknowledged, sorted ascending.
    pub received: Vec<u32>,
    /// The next sequence number expected in order; anything before it has
    /// been seen already.
    pub expected: u32,
}

impl OutgoingAck {
    pub open spec fn wf(self) -> bool {
        &&& self.expected < 0x1000000
        &&& forall|i: int, j: int|
            0 <= i < j < self.received@.len() ==> #[trigger] self.received@[i]
                < #[trigger] self.received@[j]
        &&& forall|i: int| 0 <= i < self.received@.len() ==> #[trigger] self.received@[i]
            < 0x1000000
    }

    pub fn new() -> (r: OutgoingAck)
        ensures
            r.wf(),
            r.received@.len() == 0,
            r.expected == 0,
    {
        OutgoingAck { received: Vec::new(), expected: 0 }
    }

    /// Note a received frame set. The result says whether its frames should
    /// be delivered: a sequence number already seen — before the cursor or
    /// in the pending set — is acknowledged again but not delivered twice.
    pub fn record_seq(&mut self, seq: u32) -> (r: bool)
        requires
            old(self).wf(),
            seq < 0x1000000,
        ensures
            final(self).wf(),
            r == !(seq_before(seq, old(self).expected) || old(self).received@.contains(seq)),
            forall|v: u32|
                final(self).received@.contains(v) <==> (old(self).received@.contains(v) || v
                    == seq),
            final(self).expected == if seq == old(self).expected {
                seq_next_spec(seq)
            } else {
                old(self).expected
            },
    {
        let dup_cursor = seq_is_before(seq, self.expected);
        if seq == self.expected {
            self.expected = seq_next(self.expected);
        }
        let mut pos: usize = 0;
        let n = self.received.len();
        while pos < n && self.received[pos] < seq
            invariant
                n == self.received@.len(),
                pos <= n,
                forall|j: int| 0 <= j < pos ==> #[trigger] self.received@[j] < seq,
            decreases n - pos,
        {
            pos = pos + 1;
        }
        if pos < n && self.received[pos] == seq {
            proof {
                assert(self.received@[pos as int] == seq);
                assert(self.received@.contains(seq));
            }
            return false;
        }
        proof {
            if self.received@.contains(seq) {
                let j = choose|j: int|
                    0 <= j < self.received@.len() && self.received@[j] == seq;
                if j < pos {
                    assert(self.received@[j] < seq);
                } else {
                    assert(pos < n ==> seq <= self.received@[pos as int]);
                    if j > pos {
                        assert(pos < n);
                        assert(self.received@[pos as int] < self.received@[j]);
                    }
                }
                assert(false);
            }
        }
        let ghost s0 = self.received@;
        self.received.insert(pos, seq);
        proof {
            let s1 = self.received@;
            assert(s1 =~= s0.insert(pos as int, seq));
            assert(forall|j: int| 0 <= j < pos ==> (#[trigger] s1[j]) == s0[j]);
            assert(forall|j: int| pos < j < s1.len() ==> (#[trigger] s1[j]) == s0[j - 1]);
            assert(s1[pos as int] == seq);
            assert forall|v: u32| s1.contains(v) implies (s0.contains(v) || v == seq) by {
                let j = choose|j: int| 0 <= j < s1.len() && s1[j] == v;
                if j < pos {
                    assert(s0[j] == v);
                } else if j > pos {
                    assert(s0[j - 1] == v);
                }
            }
            assert forall|v: u32| (s0.contains(v) || v == seq) implies s1.contains(v) by {
                if s0.contains(v) {
                    let j = choose|j: int| 0 <= j < s0.len() && s0[j] == v;
                    if j < pos {
                        assert(s1[j] == v);
                    } else {
                        assert(s1[j + 1] == v);
                    }
                } else {
                    assert(s1[pos as int] == v);
                }
            }
            assert forall|i: int, j: int| 0 <= i < j < s1.len() implies #[trigger] s1[i]
                < #[trigger] s1[j] by {
                if j < pos {
                } else if i > pos {
                    assert(s0[i - 1] < s0[j - 1]);
                } else if i == pos {
                    assert(s1[j] == s0[j - 1]);
                    assert(pos < n ==> seq < s0[pos as int]);
                    if j - 1 > pos {
                        assert(s0[pos as int] < s0[j - 1]);
                    }
                } else if j == pos {
                    assert(s1[i] == s0[i]);
                } else {
                    assert(s1[i] == s0[i]);
                    assert(s1[j] == s0[j - 1]);
                    if j - 1 == i {
                        assert(s0[i] < seq);
                    } else {
                        assert(s0[i] < s0[j - 1]);
                    }
                }
            }
        }
        !dup_cursor
    }

    /// Emit one acknowledgement packet's worth of records, covering the
    /// oldest pending sequence numbers; what one packet cannot carry stays
    /// for the next flush. `None` when nothing is pending.
    pub fn flush_ack(&mut self, mtu: u16) -> (r: Option<AckOrNack>)
        requires
            old(self).wf(),
            mtu >= 10,
        ensures
            final(self).wf(),
            final(self).expected == old(self).expected,
            match r {
                None => old(self).received@.len() == 0 && final(self).received@ == old(
                    self,
                ).received@,
                Some(a) => {
                    let full = records_of_from(old(self).received@, 0);
                    &&& old(self).received@.len() > 0
                    &&& a.records@ == (if full.len() <= ack_record_cap(mtu) {
                        full
                    } else {
                        full.take(ack_record_cap(mtu))
                    })
                    &&& final(self).received@ == old(self).received@.skip(
                        records_span(a.records@),
                    )
                },
            },
    {
        let ghost s = self.received@;
        let n = self.received.len();
        if n == 0 {
            return None;
        }
        let cap: usize = ((mtu - 3) / 7) as usize;
        let mut records: Vec<Record> = Vec::new();
        let mut i: usize = 0;
        while i < n && records.len() < cap
            invariant
                n == s.len(),
                s == self.received@,
                0 <= i <= n,
                records@.len() <= cap,
                cap == ack_record_cap(mtu),
                10 <= mtu,
                self.expected == old(self).expected,
                (forall|a: int, b: int| 0 <= a < b < s.len() ==> #[trigger] s[a] < #[trigger] s[b]),
                (forall|a: int| 0 <= a < s.len() ==> #[trigger] s[a] < 0x1000000),
                records@ + records_of_from(s, i as int) == records_of_from(s, 0),
                records_span(records@) == i,
            decreases n - i,
        {
            let start = self.received[i];
            let mut j = i;
            while j + 1 < n && self.received[j + 1] == self.received[j] + 1
                invariant
                    n == s.len(),
                    s == self.received@,
                    0 <= i <= j < n,
                    run_end(s, i as int) == run_end(s, j as int),
                    s[j as int] == s[i as int] + j - i,
                    (forall|a: int| 0 <= a < s.len() ==> #[trigger] s[a] < 0x1000000),
                decreases n - j,
            {
                j = j + 1;
            }
            proof {
                assert(run_end(s, j as int) == j + 1);
            }
            let rec = if j == i {
                Record::Single(start)
            } else {
                Record::Range(start, self.received[j])
            };
            let ghost oldrecords = records@;
            records.push(rec);
            proof {
                crate::ack::lemma_run_end_bounds(s, i as int);
                assert(records_of_from(s, i as int) == seq![rec] + records_of_from(s, j + 1));
                assert(records@ =~= oldrecords.push(rec));
                assert(oldrecords.push(rec) + records_of_from(s, j + 1) =~= oldrecords + (
                seq![rec] + records_of_from(s, j + 1)));
                lemma_records_span_push(oldrecords, rec);
                if j > i {
                    assert(s[i as int] < s[j as int]);
                }
            }
            i = j + 1;
        }
        let mut remaining: Vec<u32> = Vec::new();
        let mut k = i;
        while k < n
            invariant
                n == s.len(),
                s == self.received@,
                i <= k <= n,
                (remaining@ =~= s.subrange(i as int, k as int)),
            decreases n - k,
        {
            remaining.push(self.received[k]);
            k = k + 1;
        }
        let consumed = i;
        self.received = remaining;
        proof {
            assert(self.received@ =~= s.skip(consumed as int));
            let full = records_of_from(s, 0);
            if consumed >= n {
                assert(records_of_from(s, consumed as int) =~= Seq::<Record>::empty());
                assert(records@ + Seq::<Record>::empty() =~= records@);
                assert(records@ == full);
                if full.len() > ack_record_cap(mtu) {
                    assert(false);
                }
            } else {
                assert(records@.len() == cap);
                assert(full =~= records@ + records_of_from(s, consumed as int));
                assert(full.take(cap as int) =~= records@);
                crate::ack::lemma_run_end_bounds(s, consumed as int);
                assert(records_of_from(s, consumed as int).len() > 0);
                assert(full.len() > ack_record_cap(mtu));
            }
        }
        Some(AckOrNack { records })
    }
}

impl OutgoingAck {
    /// Emit one negative-acknowledgement packet's worth of records covering
    /// the sequence numbers missing below the high-water mark, or nothing
    /// when no gap is known. The pending set is left as it is: a nack is
    /// not an acknowledgement, and the peer decides when to rate-limit
    /// repeats.
    pub fn flush_nack(&self, mtu: u16) -> (r: Option<AckOrNack>)
        requires
            self.wf(),
            mtu >= 10,
        ensures
            ({
                let miss = missing_of(self.received@, self.expected as int);
                match r {
                    None => miss.len() == 0,
                    Some(a) => {
                        let full = records_of_from(miss, 0);
                        &&& miss.len() > 0
                        &&& a.records@ == (if full.len() <= ack_record_cap(mtu) {
                            full
                        } else {
                            full.take(ack_record_cap(mtu))
                        })
                    },
                }
            }),
    {
        let ghost s = self.received@;
        let ghost lo0 = self.expected as int;
        let mut missing: Vec<u32> = Vec::new();
        let mut prev = self.expected;
        let mut i: usize = 0;
        let n = self.received.len();
        proof {
            assert(Seq::<u32>::empty() + missing_of(s, lo0) =~= missing_of(s, lo0));
            assert(s.skip(0) =~= s);
        }
        while i < n
            invariant
                n == s.len(),
                s == self.received@,
                self.expected < 0x1000000,
                i <= n,
                prev < 0x1000000 || (prev == 0x1000000 && i > 0),
                (forall|a: int, b: int| 0 <= a < b < s.len() ==> #[trigger] s[a] < #[trigger] s[b]),
                (forall|a: int| 0 <= a < s.len() ==> #[trigger] s[a] < 0x1000000),
                missing@ + missing_of(s.skip(i as int), prev as int) == missing_of(s, lo0),
                (forall|j: int| 0 <= j < missing@.len() ==> #[trigger] missing@[j] < prev),
                (forall|a: int, b: int|
                    0 <= a < b < missing@.len() ==> #[trigger] missing@[a] < #[trigger] missing@[b]),
                (forall|j: int| 0 <= j < missing@.len() ==> #[trigger] missing@[j] < 0x1000000),
            decreases n - i,
        {
            let v = self.received[i];
            proof {
                assert(s.skip(i as int)[0] == s[i as int]);
                assert(s.skip(i as int).drop_first() =~= s.skip(i as int + 1));
            }
            if v >= prev {
                let ghost target = v as int;
                while prev < v
                    invariant
                        prev <= v,
                        v < 0x1000000,
                        i < n,
                        n == s.len(),
                        s == self.received@,
                        v == s[i as int],
                        target == v as int,
                        (missing@ + gaps_between(prev as int, target) + missing_of(
                            s.skip(i as int + 1),
                            target + 1,
                        ) == missing_of(s, lo0)),
                        (forall|j: int| 0 <= j < missing@.len() ==> #[trigger] missing@[j] < prev),
                        (forall|a: int, b: int|
                            0 <= a < b < missing@.len() ==> #[trigger] missing@[a]
                                < #[trigger] missing@[b]),
                        (forall|j: int|
                            0 <= j < missing@.len() ==> #[trigger] missing@[j] < 0x1000000),
                    decreases v - prev,
                {
                    let ghost mv = missing@;
                    missing.push(prev);
                    proof {
                        assert(missing@ =~= mv.push(prev));
                        assert(gaps_between(prev as int, target) == seq![prev] + gaps_between(
                            prev as int + 1,
                            target,
                        ));
                        assert(mv.push(prev) + gaps_between(prev as int + 1, target) =~= mv + (
                        seq![prev] + gaps_between(prev as int + 1, target)));
                        assert((mv.push(prev) + gaps_between(prev as int + 1, target))
                            + missing_of(s.skip(i as int + 1), target + 1) =~= (mv + (seq![prev]
                            + gaps_between(prev as int + 1, target))) + missing_of(
                            s.skip(i as int + 1),
                            target + 1,
                        ));
                        assert((mv + (seq![prev] + gaps_between(prev as int + 1, target)))
                            + missing_of(s.skip(i as int + 1), target + 1) =~= (mv + gaps_between(
                            prev as int,
                            target,
                        )) + missing_of(s.skip(i as int + 1), target + 1));
                    }
                    prev = prev + 1;
                }
                proof {
                    assert(gaps_between(prev as int, target) =~= Seq::<u32>::empty());
                    assert(missing@ + Seq::<u32>::empty() + missing_of(
                        s.skip(i as int + 1),
                        target + 1,
                    ) =~= missing@ + missing_of(s.skip(i as int + 1), target + 1));
                }
                prev = if v == 0xffffff {
                    0x1000000
                } else {
                    v + 1
                };
            } else {
                proof {
                    assert(missing_of(s.skip(i as int), prev as int) == missing_of(
                        s.skip(i as int + 1),
                        prev as int,
                    ));
                }
            }
            i = i + 1;
        }
        proof {
            assert(s.skip(n as int) =~= Seq::<u32>::empty());
            assert(missing_of(Seq::<u32>::empty(), prev as int) =~= Seq::<u32>::empty());
            assert(missing@ + Seq::<u32>::empty() =~= missing@);
        }
        if missing.len() == 0 {
            return None;
        }
        AckOrNack::extend_from(&missing, mtu)
    }
}

} // verus!
