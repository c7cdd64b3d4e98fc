//! Acknowledgement records: sorted sequence numbers coalesced into single
//! values and inclusive ranges, with their wire form.
use vstd::prelude::*;

use crate::buffer::{be_at, be_bytes, le24_at, le24_bytes, read_be, read_u24le, write_be, write_u24le};
use crate::errors::CodecError;

verus! {

/// One ack record: a single sequence number or an inclusive range.
#[derive(Debug, Clone, Copy, PartialEq, Eq, Structural)]
pub enum Record {
    Range(u32, u32),
    Single(u32),
}

pub open spec fn record_wf(r: Record) -> bool {
    match r {
        Record::Single(v) => v < 0x1000000,
        Record::Range(s, e) => s <= e < 0x1000000,
    }
}

/// Does this record cover the sequence number `v`?
pub open spec fn record_covers(r: Record, v: u32) -> bool {
    match r {
        Record::Single(x) => v == x,
        Record::Range(s, e) => s <= v <= e,
    }
}

/// A sorted, non-overlapping batch of ack or nack records.
#[derive(Debug, Clone, PartialEq, Eq)]
pub struct AckOrNack {
    pub records: Vec<Record>,
}

impl View for AckOrNack {
    type V = Seq<Record>;

    open spec fn view(&self) -> Seq<Record> {
        self.records@
    }
}

/// Does any record of the batch cover `v`?
pub open spec fn ack_covers(s: Seq<Record>, v: u32) -> bool {
    exists|i: int| 0 <= i < s.len() && record_covers(#[trigger] s[i], v)
}

/// The encoded form of one record: a tag byte, then one or two 24-bit values.
pub open spec fn record_bytes(r: Record) -> Seq<u8> {
    match r {
        Record::Single(v) => seq![1u8] + le24_bytes(v as int),
        Record::Range(s, e) => seq![0u8] + le24_bytes(s as int) + le24_bytes(e as int),
    }
}

pub open spec fn records_bytes(s: Seq<Record>) -> Seq<u8>
    decreases s.len(),
{
    if s.len() == 0 {
        Seq::empty()
    } else {
        record_bytes(s[0]) + records_bytes(s.drop_first())
    }
}

/// The encoded form of a whole batch, after its packet-id byte.
pub open spec fn ack_bytes(s: Seq<Record>) -> Seq<u8> {
    be_bytes(s.len() as int, 2) + records_bytes(s)
}

/// What decoding `n` records at `pos` yields.
pub open spec fn parse_records(b: Seq<u8>, pos: int, n: nat) -> Result<
    (Seq<Record>, int),
    CodecError,
>
    decreases n,
{
    if n == 0 {
        Ok((Seq::empty(), pos))
    } else if pos + 1 > b.len() {
        Err(CodecError::InvalidPacketLength)
    } else if b[pos] != 0 {
        if pos + 4 > b.len() {
            Err(CodecError::InvalidPacketLength)
        } else {
            match parse_records(b, pos + 4, (n - 1) as nat) {
                Err(e) => Err(e),
                Ok(rp) => Ok((seq![Record::Single(le24_at(b, pos + 1) as u32)] + rp.0, rp.1)),
            }
        }
    } else {
        if pos + 7 > b.len() {
            Err(CodecError::InvalidPacketLength)
        } else {
            match parse_records(b, pos + 7, (n - 1) as nat) {
                Err(e) => Err(e),
                Ok(rp) => Ok(
                    (
                        seq![
                            Record::Range(le24_at(b, pos + 1) as u32, le24_at(b, pos + 4) as u32)
                        ] + rp.0,
                        rp.1,
                    ),
                ),
            }
        }
    }
}

/// What decoding a whole ack or nack packet after its id byte yields; bytes
/// past the announced record count are ignored.
pub open spec fn parse_ack(b: Seq<u8>, pos: int) -> Result<Seq<Record>, CodecError> {
    if pos + 2 > b.len() {
        Err(CodecError::InvalidPacketLength)
    } else {
        match parse_records(b, pos + 2, be_at(b, pos, 2) as nat) {
            Err(e) => Err(e),
            Ok(rp) => Ok(rp.0),
        }
    }
}

/// Index just past the maximal contiguous run starting at `i`.
pub open spec fn run_end(s: Seq<u32>, i: int) -> int
    decreases s.len() - i,
    when 0 <= i < s.len()
{
    if i + 1 < s.len() && s[i + 1] == s[i] + 1 {
        run_end(s, i + 1)
    } else {
        i + 1
    }
}

pub proof fn lemma_run_end_bounds(s: Seq<u32>, i: int)
    requires
        0 <= i < s.len(),
    ensures
        i < run_end(s, i) <= s.len(),
    decreases s.len() - i,
{
    if i + 1 < s.len() && s[i + 1] == s[i] + 1 {
        lemma_run_end_bounds(s, i + 1);
    }
}

/// The records that coalescing the sorted numbers from index `i` on yields:
/// each maximal contiguous run becomes one record.
pub open spec fn records_of_from(s: Seq<u32>, i: int) -> Seq<Record>
    decreases s.len() - i,
    when 0 <= i
{
    if i >= s.len() {
        Seq::empty()
    } else {
        let e = run_end(s, i);
        if i < e <= s.len() {
            let rec = if e == i + 1 {
                Record::Single(s[i])
            } else {
                Record::Range(s[i], s[e - 1])
            };
            seq![rec] + records_of_from(s, e)
        } else {
            Seq::empty()
        }
    }
}

/// The largest record count an ack packet of this MTU carries: the id byte
/// and record count take three bytes, a record at most seven.
pub open spec fn ack_record_cap(mtu: u16) -> int {
    (mtu - 3) / 7
}

impl AckOrNack {
    /// Coalesce sorted sequence numbers into records; records past what one
    /// MTU-sized packet can carry are left for a later flush.
    pub fn extend_from(seq_nums: &Vec<u32>, mtu: u16) -> (r: Option<AckOrNack>)
        requires
            forall|i: int, j: int|
                0 <= i < j < seq_nums@.len() ==> #[trigger] seq_nums@[i] < #[trigger] seq_nums@[j],
            forall|i: int| 0 <= i < seq_nums@.len() ==> #[trigger] seq_nums@[i] < 0x1000000,
            10 <= mtu,
        ensures
            match r {
                None => seq_nums@.len() == 0,
                Some(a) => {
                    let full = records_of_from(seq_nums@, 0);
                    &&& seq_nums@.len() > 0
                    &&& a.records@ == if full.len() <= ack_record_cap(mtu) {
                        full
                    } else {
                        full.take(ack_record_cap(mtu))
                    }
                    &&& forall|k: int| 0 <= k < a.records@.len() ==> record_wf(#[trigger] a.records@[k])
                },
            },
    {
        let ghost s = seq_nums@;
        let n = seq_nums.len();
        if n == 0 {
            return None;
        }
        let cap: usize = ((mtu - 3) / 7) as usize;
        let mut records: Vec<Record> = Vec::new();
        let mut i: usize = 0;
        while i < n && records.len() < cap
            invariant
                n == s.len(),
                s == seq_nums@,
                0 <= i <= n,
                records@.len() <= cap,
                cap == ack_record_cap(mtu),
                10 <= mtu,
                (forall|a: int, b: int| 0 <= a < b < s.len() ==> #[trigger] s[a] < #[trigger] s[b]),
                (forall|a: int| 0 <= a < s.len() ==> #[trigger] s[a] < 0x1000000),
                records@ + records_of_from(s, i as int) == records_of_from(s, 0),
                (forall|k: int| 0 <= k < records@.len() ==> record_wf(#[trigger] records@[k])),
            decreases n - i,
        {
            let start = seq_nums[i];
            let mut j = i;
            while j + 1 < n && seq_nums[j + 1] == seq_nums[j] + 1
                invariant
                    n == s.len(),
                    s == seq_nums@,
                    0 <= i <= j < n,
                    run_end(s, i as int) == run_end(s, j as int),
                    (forall|a: int| 0 <= a < s.len() ==> #[trigger] s[a] < 0x1000000),
                decreases n - j,
            {
                j = j + 1;
            }
            proof {
                assert(run_end(s, j as int) == j + 1);
            }
            let rec = if j == i {
                Record::Single(start)
            } else {
                Record::Range(start, seq_nums[j])
            };
            let ghost oldrecords = records@;
            records.push(rec);
            proof {
                lemma_run_end_bounds(s, i as int);
                assert(records_of_from(s, i as int) == seq![rec] + records_of_from(s, j + 1));
                assert(records@ =~= oldrecords.push(rec));
                assert(oldrecords.push(rec) + records_of_from(s, j + 1) =~= oldrecords + (
                seq![rec] + records_of_from(s, j + 1)));
                if j > i {
                    assert(s[i as int] < s[j as int]);
                }
            }
            i = j + 1;
        }
        proof {
            let full = records_of_from(s, 0);
            if i >= n {
                assert(records_of_from(s, i as int) =~= Seq::<Record>::empty());
                assert(records@ + Seq::<Record>::empty() =~= records@);
                assert(records@ == full);
                if full.len() > ack_record_cap(mtu) {
                    assert(false);
                }
            } else {
                assert(records@.len() == cap);
                assert(full =~= records@ + records_of_from(s, i as int));
                assert(full.take(cap as int) =~= records@);
                lemma_run_end_bounds(s, i as int);
                assert(records_of_from(s, i as int).len() > 0);
                assert(full.len() > ack_record_cap(mtu));
            }
        }
        Some(AckOrNack { records })
    }

    /// Encode this batch (after its packet-id byte) onto `buf`.
    pub fn write(&self, buf: &mut Vec<u8>)
        requires
            self@.len() <= 0xffff,
            forall|k: int| 0 <= k < self@.len() ==> record_wf(#[trigger] self@[k]),
        ensures
            final(buf)@ == old(buf)@ + ack_bytes(self@),
    {
        write_be(buf, self.records.len() as u128, 2);
        let mut i: usize = 0;
        while i < self.records.len()
            invariant
                i <= self@.len(),
                (buf@ =~= old(buf)@ + be_bytes(self@.len() as int, 2) + records_bytes(
                    self@.take(i as int),
                )),
            decreases self@.len() - i,
        {
            let rec = self.records[i];
            match rec {
                Record::Single(v) => {
                    buf.push(1);
                    write_u24le(buf, v);
                },
                Record::Range(st, en) => {
                    buf.push(0);
                    write_u24le(buf, st);
                    write_u24le(buf, en);
                },
            }
            proof {
                lemma_records_bytes_push(self@.take(i as int), self@[i as int]);
                assert(self@.take((i + 1) as int) =~= self@.take(i as int).push(self@[i as int]));
                assert(buf@ =~= old(buf)@ + be_bytes(self@.len() as int, 2) + records_bytes(
                    self@.take((i + 1) as int),
                ));
            }
            i = i + 1;
        }
        proof {
            assert(self@.take(self@.len() as int) =~= self@);
            assert(buf@ =~= old(buf)@ + ack_bytes(self@));
        }
    }

    /// Decode a batch at `pos`.
    pub fn read(buf: &Vec<u8>, pos: usize) -> (r: Result<AckOrNack, CodecError>)
        ensures
            match r {
                Ok(a) => parse_ack(buf@, pos as int) == Ok::<Seq<Record>, CodecError>(a@),
                Err(e) => parse_ack(buf@, pos as int) == Err::<Seq<Record>, CodecError>(e),
            },
    {
        let Some((count, start)) = read_be(buf, pos, 2) else {
            proof {
                assert(pos + 2 > buf@.len());
                assert(parse_ack(buf@, pos as int) == Err::<Seq<Record>, CodecError>(
                    CodecError::InvalidPacketLength,
                ));
            }
            return Err(CodecError::InvalidPacketLength);
        };
        proof {
            crate::buffer::lemma_pow256_small();
        }
        let count: usize = count as usize;
        let mut records: Vec<Record> = Vec::new();
        let mut p = start;
        let mut left = count;
        proof {
            if let Ok(rp) = parse_records(buf@, start as int, count as nat) {
                assert(Seq::<Record>::empty() + rp.0 =~= rp.0);
            }
        }
        while left > 0
            invariant
                left <= count,
                start == pos + 2,
                pos + 2 <= buf@.len(),
                count as int == be_at(buf@, pos as int, 2),
                p <= usize::MAX,
                (parse_records(buf@, start as int, count as nat) == match parse_records(
                    buf@,
                    p as int,
                    left as nat,
                ) {
                    Ok(rp) => Ok::<(Seq<Record>, int), CodecError>((records@ + rp.0, rp.1)),
                    Err(e) => Err::<(Seq<Record>, int), CodecError>(e),
                }),
            decreases left,
        {
            if p >= buf.len() {
                return Err(CodecError::InvalidPacketLength);
            }
            let tag = buf[p];
            let ghost oldrecords = records@;
            if tag != 0 {
                let Some((v, p2)) = read_u24le(buf, p + 1) else {
                    return Err(CodecError::InvalidPacketLength);
                };
                records.push(Record::Single(v));
                proof {
                    lemma_read_step(buf@, p as int, left as nat, oldrecords, records@);
                    if let Ok(rp) = parse_records(buf@, p + 4, (left - 1) as nat) {
                        assert(oldrecords + (records@.skip(oldrecords.len() as int) + rp.0)
                            =~= records@ + rp.0);
                    }
                }
                p = p2;
            } else {
                if buf.len() - p < 7 {
                    return Err(CodecError::InvalidPacketLength);
                }
                let Some((st, _)) = read_u24le(buf, p + 1) else {
                    return Err(CodecError::InvalidPacketLength);
                };
                let Some((en, p2)) = read_u24le(buf, p + 4) else {
                    return Err(CodecError::InvalidPacketLength);
                };
                records.push(Record::Range(st, en));
                proof {
                    lemma_read_step(buf@, p as int, left as nat, oldrecords, records@);
                    if let Ok(rp) = parse_records(buf@, p + 7, (left - 1) as nat) {
                        assert(oldrecords + (records@.skip(oldrecords.len() as int) + rp.0)
                            =~= records@ + rp.0);
                    }
                }
                p = p2;
            }
            left = left - 1;
        }
        proof {
            assert(parse_records(buf@, p as int, 0) == Ok::<(Seq<Record>, int), CodecError>(
                (Seq::empty(), p as int),
            ));
            assert(records@ + Seq::<Record>::empty() =~= records@);
        }
        Ok(AckOrNack { records })
    }
}

/// One step of the record-decoding loop agrees with the specification.
proof fn lemma_read_step(b: Seq<u8>, p: int, left: nat, oldrecords: Seq<Record>, newrecords: Seq<Record>)
    requires
        left > 0,
        0 <= p,
        p < b.len(),
        b[p] != 0 ==> p + 4 <= b.len() && newrecords =~= oldrecords.push(
            Record::Single(le24_at(b, p + 1) as u32),
        ),
        b[p] == 0 ==> p + 7 <= b.len() && newrecords =~= oldrecords.push(
            Record::Range(le24_at(b, p + 1) as u32, le24_at(b, p + 4) as u32),
        ),
    ensures
        parse_records(b, p, left) == (match parse_records(
            b,
            (if b[p] != 0 {
                p + 4
            } else {
                p + 7
            }),
            (left - 1) as nat,
        ) {
            Ok(rp) => Ok::<(Seq<Record>, int), CodecError>(
                ((newrecords.skip(oldrecords.len() as int)) + rp.0, rp.1),
            ),
            Err(e) => Err::<(Seq<Record>, int), CodecError>(e),
        }),
{
    if b[p] != 0 {
        let rec = Record::Single(le24_at(b, p + 1) as u32);
        assert(newrecords.skip(oldrecords.len() as int) =~= seq![rec]);
    } else {
        let rec = Record::Range(le24_at(b, p + 1) as u32, le24_at(b, p + 4) as u32);
        assert(newrecords.skip(oldrecords.len() as int) =~= seq![rec]);
    }
}

/// Appending a record on the right extends the encoding on the right.
pub proof fn lemma_records_bytes_push(s: Seq<Record>, r: Record)
    ensures
        records_bytes(s.push(r)) == records_bytes(s) + record_bytes(r),
    decreases s.len(),
{
    if s.len() == 0 {
        let sp = s.push(r);
        assert(sp[0] == r);
        assert(sp.drop_first() =~= Seq::<Record>::empty());
        assert(records_bytes(sp) == record_bytes(r) + records_bytes(Seq::<Record>::empty()));
        assert(records_bytes(sp) =~= records_bytes(s) + record_bytes(r));
    } else {
        assert(s.push(r).drop_first() =~= s.drop_first().push(r));
        lemma_records_bytes_push(s.drop_first(), r);
        assert(s.push(r)[0] == s[0]);
        assert(record_bytes(s[0]) + (records_bytes(s.drop_first()) + record_bytes(r)) =~= (
        record_bytes(s[0]) + records_bytes(s.drop_first())) + record_bytes(r));
    }
}

} // verus!
