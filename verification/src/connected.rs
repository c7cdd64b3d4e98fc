//! Frames and frame sets: the connected-phase unit of transmission.
use vstd::prelude::*;

use crate::buffer::{
    be_at, be_bytes, copy_range, le24_at, le24_bytes, lemma_pow256_small, push_all, read_be,
    read_u24le, write_be, write_u24le,
};
use crate::errors::CodecError;

verus! {

/// Reliability class of a frame; decides which per-frame index fields are on
/// the wire.
#[derive(Debug, Clone, Copy, PartialEq, Eq, Structural)]
pub enum Reliability {
    Unreliable,
    UnreliableSequenced,
    Reliable,
    ReliableOrdered,
    ReliableSequenced,
    ReliableWithAckReceipt,
    ReliableOrderedWithAckReceipt,
}

impl Reliability {
    /// The three-bit wire code of this class.
    pub open spec fn code_spec(self) -> u8 {
        match self {
            Reliability::Unreliable => 0,
            Reliability::UnreliableSequenced => 1,
            Reliability::Reliable => 2,
            Reliability::ReliableOrdered => 3,
            Reliability::ReliableSequenced => 4,
            Reliability::ReliableWithAckReceipt => 5,
            Reliability::ReliableOrderedWithAckReceipt => 6,
        }
    }

    pub open spec fn from_code_spec(c: u8) -> Option<Reliability> {
        if c == 0 {
            Some(Reliability::Unreliable)
        } else if c == 1 {
            Some(Reliability::UnreliableSequenced)
        } else if c == 2 {
            Some(Reliability::Reliable)
        } else if c == 3 {
            Some(Reliability::ReliableOrdered)
        } else if c == 4 {
            Some(Reliability::ReliableSequenced)
        } else if c == 5 {
            Some(Reliability::ReliableWithAckReceipt)
        } else if c == 6 {
            Some(Reliability::ReliableOrderedWithAckReceipt)
        } else {
            None
        }
    }

    /// Frames of this class carry a reliable frame index.
    pub open spec fn is_reliable_spec(self) -> bool {
        self is Reliable || self is ReliableOrdered || self is ReliableSequenced
            || self is ReliableWithAckReceipt || self is ReliableOrderedWithAckReceipt
    }

    /// Frames of this class carry a sequenced frame index.
    pub open spec fn is_sequenced_spec(self) -> bool {
        self is UnreliableSequenced || self is ReliableSequenced
    }

    /// Frames of this class carry an ordered index and channel.
    pub open spec fn is_sequenced_or_ordered_spec(self) -> bool {
        self is UnreliableSequenced || self is ReliableSequenced || self is ReliableOrdered
            || self is ReliableOrderedWithAckReceipt
    }

    pub fn is_reliable(&self) -> (r: bool)
        ensures
            r == self.is_reliable_spec(),
    {
        matches!(
            self,
            Reliability::Reliable
                | Reliability::ReliableOrdered
                | Reliability::ReliableSequenced
                | Reliability::ReliableWithAckReceipt
                | Reliability::ReliableOrderedWithAckReceipt
        )
    }

    pub fn is_sequenced(&self) -> (r: bool)
        ensures
            r == self.is_sequenced_spec(),
    {
        matches!(self, Reliability::UnreliableSequenced | Reliability::ReliableSequenced)
    }

    pub fn is_sequenced_or_ordered(&self) -> (r: bool)
        ensures
            r == self.is_sequenced_or_ordered_spec(),
    {
        matches!(
            self,
            Reliability::UnreliableSequenced
                | Reliability::ReliableSequenced
                | Reliability::ReliableOrdered
                | Reliability::ReliableOrderedWithAckReceipt
        )
    }

    pub fn code(&self) -> (r: u8)
        ensures
            r == self.code_spec(),
    {
        match self {
            Reliability::Unreliable => 0,
            Reliability::UnreliableSequenced => 1,
            Reliability::Reliable => 2,
            Reliability::ReliableOrdered => 3,
            Reliability::ReliableSequenced => 4,
            Reliability::ReliableWithAckReceipt => 5,
            Reliability::ReliableOrderedWithAckReceipt => 6,
        }
    }

    pub fn from_code(c: u8) -> (r: Option<Reliability>)
        ensures
            r == Reliability::from_code_spec(c),
    {
        match c {
            0 => Some(Reliability::Unreliable),
            1 => Some(Reliability::UnreliableSequenced),
            2 => Some(Reliability::Reliable),
            3 => Some(Reliability::ReliableOrdered),
            4 => Some(Reliability::ReliableSequenced),
            5 => Some(Reliability::ReliableWithAckReceipt),
            6 => Some(Reliability::ReliableOrderedWithAckReceipt),
            _ => None,
        }
    }
}

/// The leading byte of a frame: reliability code in the top three bits,
/// fragmentation in bit four.
#[derive(Debug, Clone, Copy, PartialEq, Eq, Structural)]
pub struct Flags {
    pub reliability: Reliability,
    pub parted: bool,
}

impl Flags {
    pub fn new(reliability: Reliability, parted: bool) -> (r: Flags)
        ensures
            r == (Flags { reliability, parted }),
    {
        Flags { reliability, parted }
    }
}

/// The byte a frame's flags encode to.
pub open spec fn flags_byte(f: Flags) -> u8 {
    (f.reliability.code_spec() * 32 + if f.parted {
        16u8
    } else {
        0u8
    }) as u8
}

/// The flags a leading byte decodes to; bits outside the reliability code and
/// the fragmentation bit are ignored.
pub open spec fn parse_flags(byte: u8) -> Result<Flags, CodecError> {
    match Reliability::from_code_spec(byte / 32) {
        Some(r) => Ok(Flags { reliability: r, parted: (byte / 16) % 2 == 1 }),
        None => Err(CodecError::InvalidPacketId(byte)),
    }
}

pub proof fn lemma_flags_round(f: Flags)
    ensures
        parse_flags(flags_byte(f)) == Ok::<Flags, CodecError>(f),
{
    let c = f.reliability.code_spec();
    let p: u8 = if f.parted {
        16u8
    } else {
        0u8
    };
    assert(c <= 6);
    let byte = flags_byte(f);
    assert(byte == c * 32 + p);
    assert(byte / 32 == c) by (nonlinear_arith)
        requires
            byte == c * 32 + p,
            c <= 6,
            p == 16 || p == 0,
    ;
    assert((byte / 16) % 2 == (if p == 16 {
        1u8
    } else {
        0u8
    })) by (nonlinear_arith)
        requires
            byte == c * 32 + p,
            c <= 6,
            p == 16 || p == 0,
    ;
}

/// Ordered-delivery fields of a frame.
#[derive(Debug, Clone, Copy, PartialEq, Eq, Structural)]
pub struct Ordered {
    pub frame_index: u32,
    pub channel: u8,
}

/// Fragmentation fields of a frame.
#[derive(Debug, Clone, Copy, PartialEq, Eq, Structural)]
pub struct Fragment {
    pub parted_size: u32,
    pub parted_id: u16,
    pub parted_index: u32,
}

/// One reliable-protocol unit inside a frame set.
#[derive(Debug, Clone, PartialEq, Eq)]
pub struct Frame {
    pub flags: Flags,
    pub reliable_frame_index: Option<u32>,
    pub seq_frame_index: Option<u32>,
    pub ordered: Option<Ordered>,
    pub fragment: Option<Fragment>,
    pub body: Vec<u8>,
}

/// Mathematical image of a frame.
#[verifier::ext_equal]
pub ghost struct FrameView {
    pub flags: Flags,
    pub reliable_frame_index: Option<u32>,
    pub seq_frame_index: Option<u32>,
    pub ordered: Option<Ordered>,
    pub fragment: Option<Fragment>,
    pub body: Seq<u8>,
}

impl View for Frame {
    type V = FrameView;

    open spec fn view(&self) -> FrameView {
        FrameView {
            flags: self.flags,
            reliable_frame_index: self.reliable_frame_index,
            seq_frame_index: self.seq_frame_index,
            ordered: self.ordered,
            fragment: self.fragment,
            body: self.body@,
        }
    }
}

/// A batch of frames under one outer sequence number; the unit of ack/nack.
#[derive(Debug, Clone, PartialEq, Eq)]
pub struct FrameSet {
    pub seq_num: u32,
    pub frames: Vec<Frame>,
}

/// Mathematical image of a frame set.
#[verifier::ext_equal]
pub ghost struct FrameSetView {
    pub seq_num: u32,
    pub frames: Seq<FrameView>,
}

impl View for FrameSet {
    type V = FrameSetView;

    open spec fn view(&self) -> FrameSetView {
        FrameSetView {
            seq_num: self.seq_num,
            frames: self.frames@.map_values(|f: Frame| f@),
        }
    }
}

impl FrameView {
    /// The index fields are present exactly as the reliability class dictates,
    /// all 24-bit fields fit, and the body's bit length fits its 16-bit field.
    pub open spec fn wf(self) -> bool {
        &&& (self.reliable_frame_index is Some) == self.flags.reliability.is_reliable_spec()
        &&& (self.seq_frame_index is Some) == self.flags.reliability.is_sequenced_spec()
        &&& (self.ordered is Some) == self.flags.reliability.is_sequenced_or_ordered_spec()
        &&& (self.fragment is Some) == self.flags.parted
        &&& (self.reliable_frame_index matches Some(v) ==> v < 0x1000000)
        &&& (self.seq_frame_index matches Some(v) ==> v < 0x1000000)
        &&& (self.ordered matches Some(o) ==> o.frame_index < 0x1000000)
        &&& self.body.len() <= 8191
    }
}

impl FrameSetView {
    pub open spec fn wf(self) -> bool {
        &&& self.seq_num < 0x1000000
        &&& forall|i: int| 0 <= i < self.frames.len() ==> (#[trigger] self.frames[i]).wf()
    }
}

pub open spec fn opt_u24_bytes(v: Option<u32>) -> Seq<u8> {
    match v {
        Some(x) => le24_bytes(x as int),
        None => Seq::empty(),
    }
}

pub open spec fn ordered_bytes(o: Option<Ordered>) -> Seq<u8> {
    match o {
        Some(o) => le24_bytes(o.frame_index as int) + seq![o.channel],
        None => Seq::empty(),
    }
}

pub open spec fn fragment_bytes(fr: Option<Fragment>) -> Seq<u8> {
    match fr {
        Some(f) => be_bytes(f.parted_size as int, 4) + be_bytes(f.parted_id as int, 2) + be_bytes(
            f.parted_index as int,
            4,
        ),
        None => Seq::empty(),
    }
}

/// The encoded form of one frame.
pub open spec fn frame_bytes(f: FrameView) -> Seq<u8> {
    seq![flags_byte(f.flags)] + be_bytes(f.body.len() * 8 as int, 2) + opt_u24_bytes(
        f.reliable_frame_index,
    ) + opt_u24_bytes(f.seq_frame_index) + ordered_bytes(f.ordered) + fragment_bytes(f.fragment)
        + f.body
}

/// The concatenated encoding of a sequence of frames.
pub open spec fn frames_bytes(s: Seq<FrameView>) -> Seq<u8>
    decreases s.len(),
{
    if s.len() == 0 {
        Seq::empty()
    } else {
        frame_bytes(s[0]) + frames_bytes(s.drop_first())
    }
}

/// The encoded form of a frame set, after its packet-id byte.
pub open spec fn frame_set_bytes(fs: FrameSetView) -> Seq<u8> {
    le24_bytes(fs.seq_num as int) + frames_bytes(fs.frames)
}

/// What decoding one frame at `pos` yields.
pub open spec fn parse_frame(b: Seq<u8>, pos: int) -> Result<(FrameView, int), CodecError> {
    if pos + 3 > b.len() {
        Err(CodecError::InvalidPacketLength)
    } else {
        match parse_flags(b[pos]) {
            Err(e) => Err(e),
            Ok(flags) => {
                let bits = be_at(b, pos + 1, 2);
                let blen = (bits + 7) / 8;
                let p = pos + 3;
                let n_rel: int = if flags.reliability.is_reliable_spec() {
                    3
                } else {
                    0
                };
                let n_seq: int = if flags.reliability.is_sequenced_spec() {
                    3
                } else {
                    0
                };
                let n_ord: int = if flags.reliability.is_sequenced_or_ordered_spec() {
                    4
                } else {
                    0
                };
                let n_frag: int = if flags.parted {
                    10
                } else {
                    0
                };
                let q = p + n_rel + n_seq + n_ord;
                if q + n_frag + blen > b.len() {
                    Err(CodecError::InvalidPacketLength)
                } else {
                    Ok(
                        (
                            FrameView {
                                flags,
                                reliable_frame_index: if n_rel > 0 {
                                    Some(le24_at(b, p) as u32)
                                } else {
                                    None
                                },
                                seq_frame_index: if n_seq > 0 {
                                    Some(le24_at(b, p + n_rel) as u32)
                                } else {
                                    None
                                },
                                ordered: if n_ord > 0 {
                                    Some(
                                        Ordered {
                                            frame_index: le24_at(b, p + n_rel + n_seq) as u32,
                                            channel: b[p + n_rel + n_seq + 3],
                                        },
                                    )
                                } else {
                                    None
                                },
                                fragment: if n_frag > 0 {
                                    Some(
                                        Fragment {
                                            parted_size: be_at(b, q, 4) as u32,
                                            parted_id: be_at(b, q + 4, 2) as u16,
                                            parted_index: be_at(b, q + 6, 4) as u32,
                                        },
                                    )
                                } else {
                                    None
                                },
                                body: b.subrange(q + n_frag, q + n_frag + blen),
                            },
                            q + n_frag + blen,
                        ),
                    )
                }
            },
        }
    }
}

/// Decoding a frame consumes at least three bytes and stays in the buffer.
pub proof fn lemma_parse_frame_progress(b: Seq<u8>, pos: int)
    requires
        parse_frame(b, pos) is Ok,
    ensures
        pos + 3 <= parse_frame(b, pos)->Ok_0.1 <= b.len(),
{
    crate::buffer::lemma_be_at_nonneg(b, pos + 1, 2);
}

/// What decoding frames from `pos` to the end of the buffer yields.
pub open spec fn parse_frames(b: Seq<u8>, pos: int) -> Result<Seq<FrameView>, CodecError>
    decreases b.len() - pos,
{
    if pos >= b.len() {
        Ok(Seq::empty())
    } else {
        match parse_frame(b, pos) {
            Err(e) => Err(e),
            Ok(fp) => {
                if fp.1 > pos && fp.1 <= b.len() {
                    match parse_frames(b, fp.1) {
                        Err(e) => Err(e),
                        Ok(rest) => Ok(seq![fp.0] + rest),
                    }
                } else {
                    Err(CodecError::InvalidPacketLength)
                }
            },
        }
    }
}

/// What decoding a whole frame set after its id byte yields.
pub open spec fn parse_frame_set(b: Seq<u8>, pos: int) -> Result<FrameSetView, CodecError> {
    if pos + 3 > b.len() {
        Err(CodecError::InvalidPacketLength)
    } else {
        match parse_frames(b, pos + 3) {
            Err(e) => Err(e),
            Ok(frames) => Ok(FrameSetView { seq_num: le24_at(b, pos) as u32, frames }),
        }
    }
}

impl Frame {
    /// Encode this frame onto `buf`.
    #[verifier::rlimit(60)]
    pub fn write(&self, buf: &mut Vec<u8>)
        requires
            self@.wf(),
        ensures
            final(buf)@ == old(buf)@ + frame_bytes(self@),
    {
        proof {
            lemma_pow256_small();
        }
        let code = self.flags.reliability.code();
        let byte: u8 = code * 32 + if self.flags.parted {
            16
        } else {
            0
        };
        buf.push(byte);
        let bits: u64 = (self.body.len() as u64) * 8;
        write_be(buf, bits as u128, 2);
        if let Some(v) = self.reliable_frame_index {
            write_u24le(buf, v);
        }
        if let Some(v) = self.seq_frame_index {
            write_u24le(buf, v);
        }
        if let Some(o) = self.ordered {
            write_u24le(buf, o.frame_index);
            buf.push(o.channel);
        }
        if let Some(fr) = self.fragment {
            write_be(buf, fr.parted_size as u128, 4);
            write_be(buf, fr.parted_id as u128, 2);
            write_be(buf, fr.parted_index as u128, 4);
        }
        push_all(buf, &self.body);
        proof {
            assert(buf@ =~= old(buf)@ + frame_bytes(self@));
        }
    }

    /// Decode one frame at `pos`.
    pub fn read(buf: &Vec<u8>, pos: usize) -> (r: Result<(Frame, usize), CodecError>)
        ensures
            match r {
                Ok(fp) => parse_frame(buf@, pos as int) == Ok::<(FrameView, int), CodecError>(
                    (fp.0@, fp.1 as int),
                ) && fp.1 <= buf@.len(),
                Err(e) => parse_frame(buf@, pos as int) == Err::<(FrameView, int), CodecError>(e),
            },
    {
        proof {
            lemma_pow256_small();
        }
        let total = buf.len();
        if total < 3 || pos > total - 3 {
            return Err(CodecError::InvalidPacketLength);
        }
        let byte = buf[pos];
        let Some(reliability) = Reliability::from_code(byte / 32) else {
            return Err(CodecError::InvalidPacketId(byte));
        };
        let parted = (byte / 16) % 2 == 1;
        let flags = Flags { reliability, parted };
        let Some((bits, _)) = read_be(buf, pos + 1, 2) else {
            return Err(CodecError::InvalidPacketLength);
        };
        let blen: usize = ((bits as usize) + 7) / 8;
        let p = pos + 3;
        let n_rel: usize = if reliability.is_reliable() {
            3
        } else {
            0
        };
        let n_seq: usize = if reliability.is_sequenced() {
            3
        } else {
            0
        };
        let n_ord: usize = if reliability.is_sequenced_or_ordered() {
            4
        } else {
            0
        };
        let n_frag: usize = if parted {
            10
        } else {
            0
        };
        let need = n_rel + n_seq + n_ord + n_frag;
        if need > total - p || blen > total - p - need {
            return Err(CodecError::InvalidPacketLength);
        }
        let q = p + n_rel + n_seq + n_ord;
        let reliable_frame_index = if n_rel > 0 {
            let Some((v, _)) = read_u24le(buf, p) else {
                return Err(CodecError::InvalidPacketLength);
            };
            Some(v)
        } else {
            None
        };
        let seq_frame_index = if n_seq > 0 {
            let Some((v, _)) = read_u24le(buf, p + n_rel) else {
                return Err(CodecError::InvalidPacketLength);
            };
            Some(v)
        } else {
            None
        };
        let ordered = if n_ord > 0 {
            let Some((v, _)) = read_u24le(buf, p + n_rel + n_seq) else {
                return Err(CodecError::InvalidPacketLength);
            };
            Some(Ordered { frame_index: v, channel: buf[p + n_rel + n_seq + 3] })
        } else {
            None
        };
        let fragment = if n_frag > 0 {
            let Some((parted_size, _)) = read_be(buf, q, 4) else {
                return Err(CodecError::InvalidPacketLength);
            };
            let Some((parted_id, _)) = read_be(buf, q + 4, 2) else {
                return Err(CodecError::InvalidPacketLength);
            };
            let Some((parted_index, _)) = read_be(buf, q + 6, 4) else {
                return Err(CodecError::InvalidPacketLength);
            };
            Some(
                Fragment {
                    parted_size: parted_size as u32,
                    parted_id: parted_id as u16,
                    parted_index: parted_index as u32,
                },
            )
        } else {
            None
        };
        let body = copy_range(buf, q + n_frag, blen);
        let frame = Frame { flags, reliable_frame_index, seq_frame_index, ordered, fragment, body };
        let end = q + n_frag + blen;
        proof {
            let sr = parse_frame(buf@, pos as int);
            assert(sr is Ok);
            assert(frame@ =~= sr->Ok_0.0);
        }
        Ok((frame, end))
    }
}

impl FrameSet {
    /// Encode this frame set (after its packet-id byte) onto `buf`.
    pub fn write(&self, buf: &mut Vec<u8>)
        requires
            self@.wf(),
        ensures
            final(buf)@ == old(buf)@ + frame_set_bytes(self@),
    {
        write_u24le(buf, self.seq_num);
        let mut i: usize = 0;
        while i < self.frames.len()
            invariant
                self@.wf(),
                i <= self.frames@.len(),
                (buf@ =~= old(buf)@ + le24_bytes(self.seq_num as int) + frames_bytes(
                    self@.frames.take(i as int),
                )),
            decreases self.frames@.len() - i,
        {
            proof {
                assert(self@.frames[i as int].wf());
                assert(self@.frames[i as int] == self.frames@[i as int]@);
            }
            let ghost pre = buf@;
            self.frames[i].write(buf);
            proof {
                lemma_frames_bytes_push(self@.frames.take(i as int), self@.frames[i as int]);
                assert(self@.frames.take((i + 1) as int) =~= self@.frames.take(i as int).push(
                    self@.frames[i as int],
                ));
                assert(buf@ =~= old(buf)@ + le24_bytes(self.seq_num as int) + frames_bytes(
                    self@.frames.take((i + 1) as int),
                ));
            }
            i = i + 1;
        }
        proof {
            assert(self@.frames.take(self.frames@.len() as int) =~= self@.frames);
            assert(buf@ =~= old(buf)@ + frame_set_bytes(self@));
        }
    }

    /// Decode a frame set from `pos` to the end of the buffer.
    pub fn read(buf: &Vec<u8>, pos: usize) -> (r: Result<FrameSet, CodecError>)
        ensures
            match r {
                Ok(fs) => parse_frame_set(buf@, pos as int) == Ok::<FrameSetView, CodecError>(fs@),
                Err(e) => parse_frame_set(buf@, pos as int) == Err::<FrameSetView, CodecError>(e),
            },
    {
        let total = buf.len();
        if total < 3 || pos > total - 3 {
            return Err(CodecError::InvalidPacketLength);
        }
        let Some((seq_num, start)) = read_u24le(buf, pos) else {
            return Err(CodecError::InvalidPacketLength);
        };
        let mut frames: Vec<Frame> = Vec::new();
        let mut p = start;
        while p < total
            invariant
                total == buf@.len(),
                start <= p <= total,
                start == pos + 3,
                (parse_frames(buf@, start as int) == match parse_frames(buf@, p as int) {
                    Ok(rest) => Ok::<Seq<FrameView>, CodecError>(
                        frames@.map_values(|f: Frame| f@) + rest,
                    ),
                    Err(e) => Err::<Seq<FrameView>, CodecError>(e),
                }),
            decreases total - p,
        {
            match Frame::read(buf, p) {
                Ok(fp) => {
                    proof {
                        lemma_parse_frame_progress(buf@, p as int);
                    }
                    let ghost oldframes = frames@.map_values(|f: Frame| f@);
                    frames.push(fp.0);
                    proof {
                        let newframes = frames@.map_values(|f: Frame| f@);
                        assert(newframes =~= oldframes.push(fp.0@));
                        match parse_frames(buf@, fp.1 as int) {
                            Ok(rest2) => {
                                assert(parse_frames(buf@, p as int) == Ok::<
                                    Seq<FrameView>,
                                    CodecError,
                                >(seq![fp.0@] + rest2));
                                assert(oldframes + (seq![fp.0@] + rest2) =~= newframes + rest2);
                            },
                            Err(e2) => {
                                assert(parse_frames(buf@, p as int) == Err::<
                                    Seq<FrameView>,
                                    CodecError,
                                >(e2));
                            },
                        }
                    }
                    p = fp.1;
                },
                Err(e) => {
                    proof {
                        assert(parse_frames(buf@, p as int) == Err::<Seq<FrameView>, CodecError>(
                            e,
                        ));
                    }
                    return Err(e);
                },
            }
        }
        let fs = FrameSet { seq_num, frames };
        proof {
            assert(parse_frames(buf@, p as int) == Ok::<Seq<FrameView>, CodecError>(Seq::empty()));
            assert(frames@.map_values(|f: Frame| f@) + Seq::<FrameView>::empty() =~= frames@
                .map_values(|f: Frame| f@));
            assert(fs@ =~= parse_frame_set(buf@, pos as int)->Ok_0);
        }
        Ok(fs)
    }
}

/// Appending a frame on the right extends the encoding on the right.
pub proof fn lemma_frames_bytes_push(s: Seq<FrameView>, f: FrameView)
    ensures
        frames_bytes(s.push(f)) == frames_bytes(s) + frame_bytes(f),
    decreases s.len(),
{
    if s.len() == 0 {
        let sp = s.push(f);
        assert(sp[0] == f);
        assert(sp.drop_first() =~= Seq::<FrameView>::empty());
        assert(frames_bytes(sp) == frame_bytes(f) + frames_bytes(Seq::<FrameView>::empty()));
        assert(frames_bytes(sp) =~= frames_bytes(s) + frame_bytes(f));
    } else {
        assert(s.push(f).drop_first() =~= s.drop_first().push(f));
        lemma_frames_bytes_push(s.drop_first(), f);
        assert(s.push(f)[0] == s[0]);
        assert(frame_bytes(s[0]) + (frames_bytes(s.drop_first()) + frame_bytes(f)) =~= (
        frame_bytes(s[0]) + frames_bytes(s.drop_first())) + frame_bytes(f));
    }
}

/// A connected-phase packet: a frame set, or a batch of acks or nacks.
#[derive(Debug, Clone, PartialEq, Eq)]
pub enum Packet {
    FrameSet(FrameSet),
    Ack(crate::ack::AckOrNack),
    Nack(crate::ack::AckOrNack),
}

/// Mathematical image of a connected-phase packet.
#[verifier::ext_equal]
pub ghost enum PacketView {
    FrameSet(FrameSetView),
    Ack(Seq<crate::ack::Record>),
    Nack(Seq<crate::ack::Record>),
}

impl View for Packet {
    type V = PacketView;

    open spec fn view(&self) -> PacketView {
        match self {
            Packet::FrameSet(fs) => PacketView::FrameSet(fs@),
            Packet::Ack(a) => PacketView::Ack(a@),
            Packet::Nack(a) => PacketView::Nack(a@),
        }
    }
}

/// Decoding the bytes that `frame_bytes` wrote yields the frame written.
#[verifier::rlimit(100)]
pub proof fn lemma_parse_frame_at(b: Seq<u8>, pos: int, f: FrameView)
    requires
        f.wf(),
        0 <= pos,
        pos + frame_bytes(f).len() <= b.len(),
        forall|i: int| 0 <= i < frame_bytes(f).len() ==> b[pos + i] == #[trigger] frame_bytes(f)[i],
    ensures
        parse_frame(b, pos) == Ok::<(FrameView, int), CodecError>((f, pos + frame_bytes(f).len())),
{
    crate::buffer::lemma_pow256_small();
    let fb = frame_bytes(f);
    let ll = f.body.len() as int;
    let n_rel: int = if f.flags.reliability.is_reliable_spec() { 3 } else { 0 };
    let n_seq: int = if f.flags.reliability.is_sequenced_spec() { 3 } else { 0 };
    let n_ord: int = if f.flags.reliability.is_sequenced_or_ordered_spec() { 4 } else { 0 };
    let n_frag: int = if f.flags.parted { 10 } else { 0 };
    let s0 = seq![flags_byte(f.flags)];
    let s1 = be_bytes(ll * 8, 2);
    let s2 = opt_u24_bytes(f.reliable_frame_index);
    let s3 = opt_u24_bytes(f.seq_frame_index);
    let s4 = ordered_bytes(f.ordered);
    let s5 = fragment_bytes(f.fragment);
    crate::buffer::lemma_be_bytes_len(ll * 8, 2);
    if f.fragment is Some {
        crate::buffer::lemma_be_bytes_len(f.fragment->0.parted_size as int, 4);
        crate::buffer::lemma_be_bytes_len(f.fragment->0.parted_id as int, 2);
        crate::buffer::lemma_be_bytes_len(f.fragment->0.parted_index as int, 4);
    }
    assert(s1.len() == 2);
    assert(s2.len() == n_rel);
    assert(s3.len() == n_seq);
    assert(s4.len() == n_ord);
    assert(s5.len() == n_frag);
    assert(fb.len() == 3 + n_rel + n_seq + n_ord + n_frag + ll);
    // flags byte
    assert(b[pos + 0] == fb[0]);
    assert(fb[0] == flags_byte(f.flags));
    lemma_flags_round(f.flags);
    // body bit length
    assert(ll * 8 < 0x10000);
    assert forall|i: int| 0 <= i < 2 implies b[pos + 1 + i] == #[trigger] s1[i] by {
        assert(b[pos + (1 + i)] == fb[1 + i]);
        assert(fb[1 + i] == s1[i]);
    }
    crate::buffer::lemma_be_at_bytes(b, pos + 1, ll * 8, 2);
    assert(((ll * 8) + 7) / 8 == ll) by (nonlinear_arith)
        requires
            ll >= 0,
    ;
    let p = pos + 3;
    let q = p + n_rel + n_seq + n_ord;
    // reliable frame index
    if f.flags.reliability.is_reliable_spec() {
        let v = f.reliable_frame_index->0;
        assert forall|i: int| 0 <= i < 3 implies b[p + i] == #[trigger] crate::buffer::le24_bytes(
            v as int,
        )[i] by {
            assert(b[pos + (3 + i)] == fb[3 + i]);
            assert(fb[3 + i] == s2[i]);
        }
        crate::buffer::lemma_le24_at_bytes(b, p, v as int);
    }
    // sequenced frame index
    if f.flags.reliability.is_sequenced_spec() {
        let v = f.seq_frame_index->0;
        assert forall|i: int| 0 <= i < 3 implies b[p + n_rel + i]
            == #[trigger] crate::buffer::le24_bytes(v as int)[i] by {
            assert(b[pos + (3 + n_rel + i)] == fb[3 + n_rel + i]);
            assert(fb[3 + n_rel + i] == s3[i]);
        }
        crate::buffer::lemma_le24_at_bytes(b, p + n_rel, v as int);
    }
    // ordered index and channel
    if f.flags.reliability.is_sequenced_or_ordered_spec() {
        let o = f.ordered->0;
        assert forall|i: int| 0 <= i < 3 implies b[p + n_rel + n_seq + i]
            == #[trigger] crate::buffer::le24_bytes(o.frame_index as int)[i] by {
            assert(b[pos + (3 + n_rel + n_seq + i)] == fb[3 + n_rel + n_seq + i]);
            assert(fb[3 + n_rel + n_seq + i] == s4[i]);
        }
        crate::buffer::lemma_le24_at_bytes(b, p + n_rel + n_seq, o.frame_index as int);
        assert(b[pos + (3 + n_rel + n_seq + 3)] == fb[3 + n_rel + n_seq + 3]);
        assert(fb[3 + n_rel + n_seq + 3] == s4[3]);
        assert(s4[3] == o.channel);
    }
    // fragment header
    if f.flags.parted {
        let fr = f.fragment->0;
        let qq = q - pos;
        assert forall|i: int| 0 <= i < 4 implies b[q + i] == #[trigger] be_bytes(
            fr.parted_size as int,
            4,
        )[i] by {
            assert(b[pos + (qq + i)] == fb[qq + i]);
            assert(fb[qq + i] == s5[i]);
        }
        crate::buffer::lemma_be_at_bytes(b, q, fr.parted_size as int, 4);
        assert forall|i: int| 0 <= i < 2 implies b[q + 4 + i] == #[trigger] be_bytes(
            fr.parted_id as int,
            2,
        )[i] by {
            assert(b[pos + (qq + 4 + i)] == fb[qq + 4 + i]);
            assert(fb[qq + 4 + i] == s5[4 + i]);
        }
        crate::buffer::lemma_be_at_bytes(b, q + 4, fr.parted_id as int, 2);
        assert forall|i: int| 0 <= i < 4 implies b[q + 6 + i] == #[trigger] be_bytes(
            fr.parted_index as int,
            4,
        )[i] by {
            assert(b[pos + (qq + 6 + i)] == fb[qq + 6 + i]);
            assert(fb[qq + 6 + i] == s5[6 + i]);
        }
        crate::buffer::lemma_be_at_bytes(b, q + 6, fr.parted_index as int, 4);
    }
    // body
    let body_off = q + n_frag - pos;
    assert forall|i: int| 0 <= i < ll implies b[q + n_frag + i] == f.body[i] by {
        assert(b[pos + (body_off + i)] == fb[body_off + i]);
        assert(fb[body_off + i] == f.body[i]);
    }
    assert(b.subrange(q + n_frag, q + n_frag + ll) =~= f.body);
    let parsed = parse_frame(b, pos);
    assert(parsed is Ok);
    assert(parsed->Ok_0.0 =~= f);
    assert(parsed->Ok_0.1 == pos + fb.len());
}

/// Decoding the concatenated encodings of `s`, reaching exactly the end of
/// the buffer, yields `s`.
pub proof fn lemma_parse_frames_at(b: Seq<u8>, pos: int, s: Seq<FrameView>)
    requires
        forall|i: int| 0 <= i < s.len() ==> (#[trigger] s[i]).wf(),
        0 <= pos <= b.len(),
        pos + frames_bytes(s).len() == b.len(),
        forall|i: int| 0 <= i < frames_bytes(s).len() ==> b[pos + i] == #[trigger] frames_bytes(
            s,
        )[i],
    ensures
        parse_frames(b, pos) == Ok::<Seq<FrameView>, CodecError>(s),
    decreases s.len(),
{
    if s.len() == 0 {
        assert(parse_frames(b, pos) == Ok::<Seq<FrameView>, CodecError>(Seq::empty()));
        assert(Seq::<FrameView>::empty() =~= s);
    } else {
        let f0 = s[0];
        let fb0 = frame_bytes(f0);
        let rest = s.drop_first();
        assert(frames_bytes(s) == fb0 + frames_bytes(rest));
        crate::buffer::lemma_be_bytes_len(f0.body.len() * 8 as int, 2);
        assert(fb0.len() >= 3);
        assert forall|i: int| 0 <= i < fb0.len() implies b[pos + i] == #[trigger] fb0[i] by {
            assert(b[pos + i] == frames_bytes(s)[i]);
        }
        lemma_parse_frame_at(b, pos, f0);
        let p2 = pos + fb0.len();
        assert forall|i: int| 0 <= i < frames_bytes(rest).len() implies b[p2 + i]
            == #[trigger] frames_bytes(rest)[i] by {
            assert(b[pos + (fb0.len() + i)] == frames_bytes(s)[fb0.len() + i]);
        }
        lemma_parse_frames_at(b, p2, rest);
        assert(parse_frames(b, pos) == Ok::<Seq<FrameView>, CodecError>(seq![f0] + rest));
        assert(seq![f0] + rest =~= s);
    }
}

/// Law: decoding the encoding of a well-formed frame set yields it back
/// unchanged.
pub proof fn lemma_frame_set_round_trip(fs: FrameSetView)
    requires
        fs.wf(),
    ensures
        parse_frame_set(frame_set_bytes(fs), 0) == Ok::<FrameSetView, CodecError>(fs),
{
    let b = frame_set_bytes(fs);
    let sb = crate::buffer::le24_bytes(fs.seq_num as int);
    assert(sb.len() == 3);
    assert forall|i: int| 0 <= i < 3 implies b[0 + i] == #[trigger] sb[i] by {
        assert(b[i] == (sb + frames_bytes(fs.frames))[i]);
    }
    crate::buffer::lemma_le24_at_bytes(b, 0, fs.seq_num as int);
    assert forall|i: int| 0 <= i < frames_bytes(fs.frames).len() implies b[3 + i]
        == #[trigger] frames_bytes(fs.frames)[i] by {
        assert(b[3 + i] == (sb + frames_bytes(fs.frames))[3 + i]);
    }
    lemma_parse_frames_at(b, 3, fs.frames);
    assert(parse_frame_set(b, 0)->Ok_0 =~= fs);
}

} // verus!
