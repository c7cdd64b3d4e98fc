//! Byte-level primitives for the wire format: big-endian integer fields and
//! the 24-bit little-endian sequence numbers, with lemmas tying the encoding
//! and decoding directions together.
use vstd::prelude::*;
use vstd::arithmetic::div_mod::{lemma_div_denominator, lemma_fundamental_div_mod, lemma_small_mod};

verus! {

/// 256 to the power `n`: the number of values an `n`-byte field can hold.
pub open spec fn pow256(n: nat) -> int
    decreases n,
{
    if n == 0 {
        1
    } else {
        256 * pow256((n - 1) as nat)
    }
}

pub proof fn lemma_pow256_pos(n: nat)
    ensures
        pow256(n) >= 1,
    decreases n,
{
    if n > 0 {
        lemma_pow256_pos((n - 1) as nat);
    }
}

pub proof fn lemma_pow256_16()
    ensures
        pow256(16) == 0x100000000000000000000000000000000,
{
    reveal_with_fuel(pow256, 17);
}

/// The field widths the wire format uses, spelled out.
pub proof fn lemma_pow256_small()
    ensures
        pow256(1) == 0x100,
        pow256(2) == 0x10000,
        pow256(3) == 0x1000000,
        pow256(4) == 0x100000000,
        pow256(8) == 0x10000000000000000,
        pow256(16) == 0x100000000000000000000000000000000,
{
    reveal_with_fuel(pow256, 17);
}

pub proof fn lemma_pow256_increases(a: nat, b: nat)
    requires
        a <= b,
    ensures
        pow256(a) <= pow256(b),
    decreases b,
{
    if a < b {
        lemma_pow256_increases(a, (b - 1) as nat);
        lemma_pow256_pos((b - 1) as nat);
    }
}

/// The integer held big-endian in the `n` bytes of `b` starting at `pos`.
pub open spec fn be_at(b: Seq<u8>, pos: int, n: nat) -> int
    decreases n,
{
    if n == 0 {
        0
    } else {
        be_at(b, pos, (n - 1) as nat) * 256 + b[pos + n - 1]
    }
}

/// The `n` big-endian bytes of the integer `v`.
pub open spec fn be_bytes(v: int, n: nat) -> Seq<u8>
    decreases n,
{
    if n == 0 {
        Seq::empty()
    } else {
        be_bytes(v / 256, (n - 1) as nat) + seq![(v % 256) as u8]
    }
}

pub proof fn lemma_be_bytes_len(v: int, n: nat)
    ensures
        be_bytes(v, n).len() == n,
    decreases n,
{
    if n > 0 {
        lemma_be_bytes_len(v / 256, (n - 1) as nat);
    }
}

/// Reading back the bytes that `be_bytes` wrote yields the value written.
pub proof fn lemma_be_at_bytes(b: Seq<u8>, pos: int, v: int, n: nat)
    requires
        0 <= pos,
        pos + n <= b.len(),
        0 <= v < pow256(n),
        forall|i: int| 0 <= i < n ==> b[pos + i] == be_bytes(v, n)[i],
    ensures
        be_at(b, pos, n) == v,
    decreases n,
{
    lemma_be_bytes_len(v, n);
    if n == 0 {
        assert(v == 0);
    } else {
        let m = (n - 1) as nat;
        lemma_be_bytes_len(v / 256, m);
        assert(be_bytes(v, n)[n - 1] == (v % 256) as u8);
        assert forall|i: int| 0 <= i < m implies b[pos + i] == #[trigger] be_bytes(v / 256, m)[i] by {
            assert(b[pos + i] == be_bytes(v, n)[i]);
        }
        assert(v / 256 >= 0) by {
            lemma_fundamental_div_mod(v, 256);
        }
        assert(v / 256 < pow256(m)) by {
            lemma_fundamental_div_mod(v, 256);
            lemma_pow256_pos(m);
        }
        lemma_be_at_bytes(b, pos, v / 256, m);
        lemma_fundamental_div_mod(v, 256);
        assert(b[pos + n - 1] == (v % 256) as u8);
        assert(be_at(b, pos, n) == (v / 256) * 256 + v % 256);
    }
}

pub proof fn lemma_be_at_nonneg(b: Seq<u8>, pos: int, n: nat)
    ensures
        be_at(b, pos, n) >= 0,
    decreases n,
{
    if n > 0 {
        lemma_be_at_nonneg(b, pos, (n - 1) as nat);
    }
}

/// Read an `n`-byte big-endian field at `pos`; `None` when the buffer is too
/// short.
pub fn read_be(buf: &Vec<u8>, pos: usize, n: usize) -> (r: Option<(u128, usize)>)
    requires
        n <= 16,
    ensures
        match r {
            Some(vp) => {
                &&& pos + n <= buf@.len()
                &&& vp.1 == pos + n
                &&& vp.0 as int == be_at(buf@, pos as int, n as nat)
                &&& (vp.0 as int) < pow256(n as nat)
            },
            None => pos + n > buf@.len(),
        },
{
    if buf.len() < n || pos > buf.len() - n {
        return None;
    }
    let mut acc: u128 = 0;
    let mut i: usize = 0;
    while i < n
        invariant
            pos + n <= buf@.len(),
            pos + n <= usize::MAX,
            i <= n,
            n <= 16,
            acc as int == be_at(buf@, pos as int, i as nat),
            (acc as int) < pow256(i as nat),
        decreases n - i,
    {
        proof {
            lemma_pow256_increases((i + 1) as nat, 16);
            lemma_pow256_16();
            assert(pow256((i + 1) as nat) == 256 * pow256(i as nat));
        }
        acc = acc * 256 + (buf[pos + i] as u128);
        i = i + 1;
    }
    Some((acc, pos + n))
}

/// Append the `n`-byte big-endian form of `v`.
pub fn write_be(buf: &mut Vec<u8>, v: u128, n: usize)
    ensures
        final(buf)@ == old(buf)@ + be_bytes(v as int, n as nat),
    decreases n,
{
    if n == 0 {
        assert(buf@ == old(buf)@ + be_bytes(v as int, 0));
    } else {
        write_be(buf, v / 256, n - 1);
        buf.push((v % 256) as u8);
        assert(buf@ == old(buf)@ + be_bytes(v as int, n as nat));
    }
}

/// The integer held in the three little-endian bytes of `b` at `pos`.
pub open spec fn le24_at(b: Seq<u8>, pos: int) -> int {
    b[pos] + 256 * (b[pos + 1] as int) + 65536 * (b[pos + 2] as int)
}

/// The three little-endian bytes of the 24-bit value `v`.
pub open spec fn le24_bytes(v: int) -> Seq<u8> {
    seq![(v % 256) as u8, ((v / 256) % 256) as u8, ((v / 65536) % 256) as u8]
}

/// Reading back the bytes that `le24_bytes` wrote yields the value written.
pub proof fn lemma_le24_at_bytes(b: Seq<u8>, pos: int, v: int)
    requires
        0 <= pos,
        pos + 3 <= b.len(),
        0 <= v < 0x1000000,
        forall|i: int| 0 <= i < 3 ==> b[pos + i] == le24_bytes(v)[i],
    ensures
        le24_at(b, pos) == v,
{
    lemma_fundamental_div_mod(v, 256);
    lemma_fundamental_div_mod(v / 256, 256);
    lemma_div_denominator(v, 256, 256);
    assert(v / 65536 < 256);
    lemma_small_mod((v / 65536) as nat, 256);
    assert(b[pos + 0] == le24_bytes(v)[0] && b[pos + 1] == le24_bytes(v)[1] && b[pos + 2]
        == le24_bytes(v)[2]);
    assert(b[pos] == (v % 256) as u8);
    assert(b[pos + 1] == ((v / 256) % 256) as u8);
    assert(b[pos + 2] == ((v / 65536) % 256) as u8);
}

/// Read a 24-bit little-endian sequence-number field.
pub fn read_u24le(buf: &Vec<u8>, pos: usize) -> (r: Option<(u32, usize)>)
    ensures
        match r {
            Some(vp) => {
                &&& pos + 3 <= buf@.len()
                &&& vp.1 == pos + 3
                &&& vp.0 as int == le24_at(buf@, pos as int)
                &&& vp.0 < 0x1000000
            },
            None => pos + 3 > buf@.len(),
        },
{
    if buf.len() < 3 || pos > buf.len() - 3 {
        return None;
    }
    let b0 = buf[pos] as u32;
    let b1 = buf[pos + 1] as u32;
    let b2 = buf[pos + 2] as u32;
    Some((b0 + 256 * b1 + 65536 * b2, pos + 3))
}

/// Append the three little-endian bytes of a 24-bit value.
pub fn write_u24le(buf: &mut Vec<u8>, v: u32)
    ensures
        final(buf)@ == old(buf)@ + le24_bytes(v as int),
{
    buf.push((v % 256) as u8);
    buf.push(((v / 256) % 256) as u8);
    buf.push(((v / 65536) % 256) as u8);
    assert(buf@ == old(buf)@ + le24_bytes(v as int));
}

/// Append every byte of `src`.
pub fn push_all(buf: &mut Vec<u8>, src: &Vec<u8>)
    ensures
        final(buf)@ == old(buf)@ + src@,
{
    let mut i: usize = 0;
    while i < src.len()
        invariant
            i <= src@.len(),
            (buf@ =~= old(buf)@ + src@.take(i as int)),
        decreases src@.len() - i,
    {
        buf.push(src[i]);
        proof {
            assert(src@.take((i + 1) as int) =~= src@.take(i as int).push(src@[i as int]));
            assert(buf@ =~= old(buf)@ + src@.take((i + 1) as int));
        }
        i = i + 1;
    }
    proof {
        assert(src@.take(src@.len() as int) =~= src@);
    }
}

/// Copy `len` bytes starting at `start` into a fresh vector.
pub fn copy_range(buf: &Vec<u8>, start: usize, len: usize) -> (r: Vec<u8>)
    requires
        start + len <= buf@.len(),
    ensures
        r@ == buf@.subrange(start as int, start as int + len as int),
{
    let total = buf.len();
    let mut out: Vec<u8> = Vec::new();
    let mut i: usize = 0;
    while i < len
        invariant
            i <= len,
            total == buf@.len(),
            start + len <= total,
            (out@ =~= buf@.subrange(start as int, start as int + i as int)),
        decreases len - i,
    {
        out.push(buf[start + i]);
        proof {
            assert(out@ =~= buf@.subrange(start as int, start as int + (i + 1) as int));
        }
        i = i + 1;
    }
    proof {
        assert(out@ =~= buf@.subrange(start as int, start as int + len as int));
    }
    out
}

} // verus!
