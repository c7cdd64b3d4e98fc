//! Fragmentation of large messages and their reassembly by compound id and
//! fragment index.
use vstd::prelude::*;

use crate::assoc::{assoc_get, assoc_has, assoc_unique, lemma_assoc_at, lemma_assoc_push};
use crate::buffer::copy_range;

verus! {

/// The concatenation of a list of chunks.
pub open spec fn chunks_cat(cs: Seq<Vec<u8>>) -> Seq<u8>
    decreases cs.len(),
{
    if cs.len() == 0 {
        Seq::empty()
    } else {
        cs[0]@ + chunks_cat(cs.drop_first())
    }
}

pub proof fn lemma_chunks_cat_push(cs: Seq<Vec<u8>>, c: Vec<u8>)
    ensures
        chunks_cat(cs.push(c)) == chunks_cat(cs) + c@,
    decreases cs.len(),
{
    if cs.len() == 0 {
        let sp = cs.push(c);
        assert(sp[0] == c);
        assert(sp.drop_first() =~= Seq::<Vec<u8>>::empty());
        assert(chunks_cat(sp) == c@ + chunks_cat(Seq::<Vec<u8>>::empty()));
        assert(chunks_cat(sp) =~= chunks_cat(cs) + c@);
    } else {
        assert(cs.push(c).drop_first() =~= cs.drop_first().push(c));
        lemma_chunks_cat_push(cs.drop_first(), c);
        assert(cs.push(c)[0] == cs[0]);
        assert(cs[0]@ + (chunks_cat(cs.drop_first()) + c@) =~= (cs[0]@ + chunks_cat(
            cs.drop_first(),
        )) + c@);
    }
}

/// Chunks that are each non-empty concatenate to at least their count.
pub proof fn lemma_chunks_cat_len(cs: Seq<Vec<u8>>)
    requires
        forall|i: int| 0 <= i < cs.len() ==> (#[trigger] cs[i])@.len() > 0,
    ensures
        chunks_cat(cs).len() >= cs.len(),
    decreases cs.len(),
{
    if cs.len() > 0 {
        assert(forall|i: int|
            0 <= i < cs.drop_first().len() ==> (#[trigger] cs.drop_first()[i]) == cs[i + 1]);
        lemma_chunks_cat_len(cs.drop_first());
    }
}

/// Split a message into chunks of at most `chunk` bytes: all chunks but the
/// last are full, and together they concatenate back to the message.
pub fn split_chunks(data: &Vec<u8>, chunk: usize) -> (r: Vec<Vec<u8>>)
    requires
        chunk >= 1,
    ensures
        chunks_cat(r@) == data@,
        forall|i: int| 0 <= i < r@.len() ==> (#[trigger] r@[i])@.len() <= chunk,
        forall|i: int| 0 <= i < r@.len() - 1 ==> (#[trigger] r@[i])@.len() == chunk,
        forall|i: int| 0 <= i < r@.len() ==> (#[trigger] r@[i])@.len() > 0,
        data@.len() == 0 ==> r@.len() == 0,
{
    let total = data.len();
    let mut out: Vec<Vec<u8>> = Vec::new();
    let mut pos: usize = 0;
    proof {
        assert(data@.take(0) =~= Seq::<u8>::empty());
    }
    while pos < total
        invariant
            total == data@.len(),
            pos <= total,
            chunk >= 1,
            chunks_cat(out@) == data@.take(pos as int),
            forall|i: int| 0 <= i < out@.len() ==> (#[trigger] out@[i])@.len() <= chunk,
            forall|i: int| 0 <= i < out@.len() - 1 ==> (#[trigger] out@[i])@.len() == chunk,
            out@.len() > 0 && pos < total ==> out@[out@.len() - 1]@.len() == chunk,
            forall|i: int| 0 <= i < out@.len() ==> (#[trigger] out@[i])@.len() > 0,
        decreases total - pos,
    {
        let len = if total - pos < chunk {
            total - pos
        } else {
            chunk
        };
        let piece = copy_range(data, pos, len);
        let ghost outv = out@;
        out.push(piece);
        proof {
            lemma_chunks_cat_push(outv, piece);
            assert(out@ =~= outv.push(piece));
            assert(data@.take(pos as int) + data@.subrange(pos as int, pos as int + len as int)
                =~= data@.take(pos as int + len as int));
        }
        pos = pos + len;
    }
    proof {
        assert(data@.take(total as int) =~= data@);
    }
    out
}

/// One partly-received compound: its announced fragment count and the
/// fragments stored so far, by fragment index.
pub struct Reassembly {
    pub parted_size: u32,
    pub parts: Vec<(u32, Vec<u8>)>,
}

/// Mathematical image of a partly-received compound.
#[verifier::ext_equal]
pub ghost struct ReassemblyV {
    pub parted_size: u32,
    pub parts: Seq<(u32, Vec<u8>)>,
}

impl View for Reassembly {
    type V = ReassemblyV;

    open spec fn view(&self) -> ReassemblyV {
        ReassemblyV { parted_size: self.parted_size, parts: self.parts@ }
    }
}

/// The first `n` fragments of a complete compound, in index order.
pub open spec fn parts_cat(parts: Seq<(u32, Vec<u8>)>, n: nat) -> Seq<u8>
    decreases n,
{
    if n == 0 {
        Seq::empty()
    } else {
        parts_cat(parts, (n - 1) as nat) + assoc_get(parts, (n - 1) as u32)@
    }
}

/// Joins fragmented frames into whole messages, keyed by compound id.
pub struct Reassembler {
    pub pending: Vec<(u16, Reassembly)>,
}

impl Reassembler {
    pub open spec fn entries(self) -> Seq<(u16, ReassemblyV)> {
        self.pending@.map_values(|p: (u16, Reassembly)| (p.0, p.1@))
    }

    pub open spec fn wf(self) -> bool {
        &&& assoc_unique(self.entries())
        &&& forall|i: int|
            0 <= i < self.entries().len() ==> assoc_unique(
                (#[trigger] self.entries()[i]).1.parts,
            ) && self.entries()[i].1.parts.len() <= self.entries()[i].1.parted_size && (forall|
                j: int,
            |
                0 <= j < self.entries()[i].1.parts.len() ==> (#[trigger] self.entries()[i].1.parts[j]).0
                    < self.entries()[i].1.parted_size)
    }

    pub fn new() -> (r: Reassembler)
        ensures
            r.wf(),
            r.entries().len() == 0,
    {
        Reassembler { pending: Vec::new() }
    }

    /// The index in the pending table holding `id`, if any.
    fn position_of(&self, id: u16) -> (r: Option<usize>)
        ensures
            match r {
                Some(i) => i < self.pending@.len() && self.pending@[i as int].0 == id,
                None => forall|j: int|
                    0 <= j < self.pending@.len() ==> (#[trigger] self.pending@[j]).0 != id,
            },
    {
        let mut i: usize = 0;
        while i < self.pending.len()
            invariant
                i <= self.pending@.len(),
                forall|j: int| 0 <= j < i ==> (#[trigger] self.pending@[j]).0 != id,
            decreases self.pending@.len() - i,
        {
            if self.pending[i].0 == id {
                return Some(i);
            }
            i = i + 1;
        }
        None
    }

    /// Take in one fragment. A fragment that contradicts its compound's
    /// announced size, repeats an index, or points past the end is
    /// discarded. When the last missing fragment arrives the compound is
    /// removed and the whole message, fragments concatenated in index
    /// order, is returned.
    pub fn insert(&mut self, parted_id: u16, parted_size: u32, parted_index: u32, body: Vec<u8>)
        -> (r: Option<Vec<u8>>)
        requires
            old(self).wf(),
        ensures
            final(self).wf(),
            ({
                let e0 = old(self).entries();
                let e1 = final(self).entries();
                if parted_size == 0 || parted_index >= parted_size {
                    r is None && e1 == e0
                } else if !assoc_has(e0, parted_id) {
                    if parted_size == 1 {
                        r matches Some(msg) && msg@ == body@ && e1 == e0
                    } else {
                        r is None && e1 == e0.push(
                            (
                                parted_id,
                                ReassemblyV {
                                    parted_size,
                                    parts: seq![(parted_index, body)],
                                },
                            ),
                        )
                    }
                } else if assoc_get(e0, parted_id).parted_size != parted_size || assoc_has(
                    assoc_get(e0, parted_id).parts,
                    parted_index,
                ) {
                    r is None && e1 == e0
                } else if assoc_get(e0, parted_id).parts.len() + 1 == parted_size {
                    r matches Some(msg) && msg@ == parts_cat(
                        assoc_get(e0, parted_id).parts.push((parted_index, body)),
                        parted_size as nat,
                    ) && !assoc_has(e1, parted_id)
                } else {
                    r is None && assoc_has(e1, parted_id) && assoc_get(e1, parted_id) == (
                    ReassemblyV {
                        parted_size,
                        parts: assoc_get(e0, parted_id).parts.push((parted_index, body)),
                    })
                }
            }),
    {
        if parted_size == 0 || parted_index >= parted_size {
            return None;
        }
        let ghost e0 = self.entries();
        match self.position_of(parted_id) {
            None => {
                proof {
                    if assoc_has(self.entries(), parted_id) {
                        let j = crate::assoc::assoc_idx(self.entries(), parted_id);
                        assert(self.entries()[j].0 == parted_id);
                        assert(self.pending@[j].0 == parted_id);
                        assert(false);
                    }
                }
                if parted_size == 1 {
                    proof {
                        assert(parted_index == 0);
                        let parts = seq![(parted_index, body)];
                        assert(parts[0].0 == 0u32);
                        assert(assoc_has(parts, 0u32));
                        crate::assoc::lemma_assoc_at(parts, 0);
                        assert(parts_cat(parts, 0) =~= Seq::<u8>::empty());
                        assert(parts_cat(parts, 1) =~= body@);
                    }
                    return Some(body);
                }
                let entry = Reassembly { parted_size, parts: vec![(parted_index, body)] };
                proof {
                    assert(entry@.parts =~= seq![(parted_index, body)]);
                    lemma_assoc_push(e0, (parted_id, entry@));
                }
                self.pending.push((parted_id, entry));
                proof {
                    assert(self.entries() =~= e0.push((parted_id, (ReassemblyV {
                        parted_size,
                        parts: seq![(parted_index, body)],
                    }))));
                    assert forall|i: int| 0 <= i < self.entries().len() implies assoc_unique(
                        (#[trigger] self.entries()[i]).1.parts,
                    ) && self.entries()[i].1.parts.len() <= self.entries()[i].1.parted_size && (
                    forall|j: int|
                        0 <= j < self.entries()[i].1.parts.len() ==> (
                        #[trigger] self.entries()[i].1.parts[j]).0 < self.entries()[
                        i].1.parted_size) by {
                        if i < e0.len() {
                            assert(self.entries()[i] == e0[i]);
                            assert(assoc_unique(e0[i].1.parts));
                        } else {
                            assert(self.entries()[i].1.parts =~= seq![(parted_index, body)]);
                            assert(self.entries()[i].1.parts[0].0 == parted_index);
                        }
                    }
                }
                None
            },
            Some(i) => {
                proof {
                    lemma_assoc_at(self.entries(), i as int);
                    assert(self.entries()[i as int] == (self.pending@[i as int].0,
                    self.pending@[i as int].1@));
                }
                if self.pending[i].1.parted_size != parted_size {
                    return None;
                }
                match self.part_position(i, parted_index) {
                    Some(_) => None,
                    None => {
                        let ghost parts0 = self.pending@[i as int].1.parts@;
                        proof {
                            if assoc_has(parts0, parted_index) {
                                let j = crate::assoc::assoc_idx(parts0, parted_index);
                                assert(parts0[j].0 == parted_index);
                                assert(false);
                            }
                            lemma_assoc_push(parts0, (parted_index, body));
                        }
                        proof {
                            assert(self.entries()[i as int].1.parts.len() <= self.entries()[
                                i as int].1.parted_size);
                            if parts0.len() == parted_size {
                                lemma_parts_pigeonhole(
                                    parts0,
                                    parted_size as nat,
                                    parted_index,
                                );
                                assert(false);
                            }
                        }
                        let done = self.pending[i].1.parts.len() + 1
                            == self.pending[i].1.parted_size as usize;
                        let ghost eself = self.entries();
                        let mut entry = self.pending.remove(i);
                        proof {
                            crate::assoc::lemma_assoc_remove(eself, i as int);
                            assert(self.entries() =~= eself.remove(i as int));
                        }
                        entry.1.parts.push((parted_index, body));
                        if done {
                            let msg = assemble(&entry.1);
                            proof {
                                assert(!assoc_has(self.entries(), parted_id));
                            }
                            Some(msg)
                        } else {
                            proof {
                                lemma_assoc_push(self.entries(), (parted_id, entry.1@));
                            }
                            let ghost emid = self.entries();
                            self.pending.push(entry);
                            proof {
                                assert(self.entries() =~= emid.push(
                                    (parted_id, (ReassemblyV {
                                        parted_size,
                                        parts: parts0.push((parted_index, body)),
                                    })),
                                ));
                                assert forall|q: int|
                                    0 <= q < self.entries().len() implies assoc_unique(
                                    (#[trigger] self.entries()[q]).1.parts,
                                ) && self.entries()[q].1.parts.len()
                                    <= self.entries()[q].1.parted_size && (forall|j: int|
                                    0 <= j < self.entries()[q].1.parts.len() ==> (
                                    #[trigger] self.entries()[q].1.parts[j]).0 < self.entries()[
                                    q].1.parted_size) by {
                                    if q < emid.len() {
                                        assert(self.entries()[q] == emid[q]);
                                        let q2: int = if q < i as int {
                                            q
                                        } else {
                                            q + 1
                                        };
                                        assert(emid[q] == eself[q2]);
                                        assert(assoc_unique(eself[q2].1.parts));
                                    } else {
                                        assert(self.entries()[q].1.parts =~= parts0.push(
                                            (parted_index, body),
                                        ));
                                        assert(forall|j: int|
                                            0 <= j < parts0.len() ==> (#[trigger] parts0.push(
                                                (parted_index, body),
                                            )[j]) == parts0[j]);
                                        assert(assoc_unique(eself[i as int].1.parts));
                                        assert(eself[i as int].1.parts == parts0);
                                    }
                                }
                            }
                            None
                        }
                    },
                }
            },
        }
    }

    /// The position of a fragment index inside compound `i`, if present.
    fn part_position(&self, i: usize, idx: u32) -> (r: Option<usize>)
        requires
            i < self.pending@.len(),
        ensures
            match r {
                Some(j) => j < self.pending@[i as int].1.parts@.len()
                    && self.pending@[i as int].1.parts@[j as int].0 == idx,
                None => forall|j: int|
                    0 <= j < self.pending@[i as int].1.parts@.len() ==> (
                    #[trigger] self.pending@[i as int].1.parts@[j]).0 != idx,
            },
    {
        let mut j: usize = 0;
        while j < self.pending[i].1.parts.len()
            invariant
                i < self.pending@.len(),
                j <= self.pending@[i as int].1.parts@.len(),
                forall|q: int|
                    0 <= q < j ==> (#[trigger] self.pending@[i as int].1.parts@[q]).0 != idx,
            decreases self.pending@[i as int].1.parts@.len() - j,
        {
            if self.pending[i].1.parts[j].0 == idx {
                return Some(j);
            }
            j = j + 1;
        }
        None
    }
}

/// Concatenate a complete compound's fragments in index order.
fn assemble(entry: &Reassembly) -> (r: Vec<u8>)
    requires
        assoc_unique(entry@.parts),
        entry@.parts.len() == entry@.parted_size,
        forall|j: int|
            0 <= j < entry@.parts.len() ==> (#[trigger] entry@.parts[j]).0 < entry@.parted_size,
    ensures
        r@ == parts_cat(entry@.parts, entry@.parted_size as nat),
{
    let mut out: Vec<u8> = Vec::new();
    let mut i: u32 = 0;
    while i < entry.parted_size
        invariant
            assoc_unique(entry@.parts),
            entry@.parts.len() == entry@.parted_size,
            (forall|j: int|
                0 <= j < entry@.parts.len() ==> (#[trigger] entry@.parts[j]).0
                    < entry@.parted_size),
            i <= entry@.parted_size,
            out@ == parts_cat(entry@.parts, i as nat),
        decreases entry@.parted_size - i,
    {
        proof {
            lemma_parts_pigeonhole(entry@.parts, entry@.parted_size as nat, i);
        }
        let mut j: usize = 0;
        let mut found: usize = 0;
        let n = entry.parts.len();
        while j < n
            invariant
                n == entry@.parts.len(),
                j <= n,
                assoc_has(entry@.parts, i) ==> (forall|q: int|
                    0 <= q < j ==> (#[trigger] entry@.parts[q]).0 != i) || (found < n
                    && entry@.parts[found as int].0 == i),
            decreases n - j,
        {
            if entry.parts[j].0 == i {
                found = j;
                proof {
                    assert(entry@.parts[found as int].0 == i);
                }
                j = n;
            } else {
                j = j + 1;
            }
        }
        proof {
            assert(assoc_has(entry@.parts, i));
            assert(entry@.parts[found as int].0 == i);
            lemma_assoc_at(entry@.parts, found as int);
        }
        let piece = copy_range(
            &entry.parts[found].1,
            0,
            entry.parts[found].1.len(),
        );
        proof {
            assert(piece@ =~= entry@.parts[found as int].1@);
        }
        crate::buffer::push_all(&mut out, &piece);
        proof {
            assert(out@ =~= parts_cat(entry@.parts, (i + 1) as nat));
        }
        i = i + 1;
    }
    out
}

/// A complete compound holds every index below its size: `size` distinct
/// keys all below `size` must cover each of them.
pub proof fn lemma_parts_pigeonhole(parts: Seq<(u32, Vec<u8>)>, size: nat, idx: u32)
    requires
        assoc_unique(parts),
        parts.len() == size,
        forall|j: int| 0 <= j < parts.len() ==> (#[trigger] parts[j]).0 < size,
        idx < size,
    ensures
        assoc_has(parts, idx),
    decreases size,
{
    let last = (size - 1) as int;
    if assoc_has(parts, (size - 1) as u32) {
        if idx == size - 1 {
        } else {
            let i = crate::assoc::assoc_idx(parts, (size - 1) as u32);
            assert(parts[i].0 == (size - 1) as u32);
            crate::assoc::lemma_assoc_remove(parts, i);
            let r = parts.remove(i);
            assert forall|j: int| 0 <= j < r.len() implies (#[trigger] r[j]).0 < size - 1 by {
                let j2: int = if j < i {
                    j
                } else {
                    j + 1
                };
                assert(r[j] == parts[j2]);
                if parts[j2].0 == (size - 1) as u32 {
                    if j2 < i {
                        assert(parts[j2].0 != parts[i].0);
                    } else {
                        assert(parts[i].0 != parts[j2].0);
                    }
                }
            }
            lemma_parts_pigeonhole(r, (size - 1) as nat, idx);
            assert(assoc_has(r, idx));
            assert(assoc_has(parts, idx));
        }
    } else {
        assert forall|j: int| 0 <= j < parts.len() implies (#[trigger] parts[j]).0 < size - 1 by {
            if parts[j].0 == (size - 1) as u32 {
                crate::assoc::lemma_assoc_at(parts, j);
            }
        }
        let m = parts[last].0;
        crate::assoc::lemma_assoc_remove(parts, last);
        let r = parts.remove(last);
        assert(!assoc_has(r, m));
        assert(forall|j: int| 0 <= j < r.len() ==> (#[trigger] r[j]) == parts[j]);
        lemma_parts_pigeonhole(r, (size - 1) as nat, m);
        assert(false);
    }
}

} // verus!
