//! Blocks addressed by a short ASCII name: the store's entry points.

use vstd::prelude::*;

verus! {

use crate::error::Error;
use crate::io::ByteWriter;
use crate::io::enc_list;
use crate::io::enc_u32;
use crate::io::enc_u8;
use crate::io::read_exact;
use crate::io::read_u32;
use crate::io::read_u8;

/// The big-endian value of four bytes.
pub open spec fn dec_u32(s: Seq<u8>) -> u32 {
    (((s[0] as u32) << 24) | ((s[1] as u32) << 16) | ((s[2] as u32) << 8) | (s[3] as u32)) as u32
}

/// Decoding inverts encoding for `u32`.
pub proof fn lemma_dec_enc_u32(v: u32)
    ensures
        dec_u32(enc_u32(v)) == v,
{
    let b0 = ((v >> 24) & 0xff) as u8;
    let b1 = ((v >> 16) & 0xff) as u8;
    let b2 = ((v >> 8) & 0xff) as u8;
    let b3 = (v & 0xff) as u8;
    assert((((b0 as u32) << 24) | ((b1 as u32) << 16) | ((b2 as u32) << 8) | (b3 as u32)) as u32
        == v) by (bit_vector)
        requires
            b0 == ((v >> 24) & 0xff) as u8,
            b1 == ((v >> 16) & 0xff) as u8,
            b2 == ((v >> 8) & 0xff) as u8,
            b3 == (v & 0xff) as u8;
}

/// Whether a byte sequence contains a NUL byte.
pub open spec fn has_nul(s: Seq<u8>) -> bool {
    exists|i: int| 0 <= i < s.len() && s[i] == 0
}

/// A name as stored: at most 255 bytes, no NUL inside.
pub open spec fn name_wf(s: Seq<u8>) -> bool {
    s.len() <= 255 && !has_nul(s)
}

/// One entry's on-disk form: block index, name length, name bytes.
pub open spec fn enc_named_entry(e: (Seq<u8>, u32)) -> Seq<u8> {
    enc_u32(e.1) + enc_u8(e.0.len() as u8) + e.0
}

/// Decode `count` entries starting at `pos`: `(index u32, len u8, name)`
/// per entry, one trailing NUL stripped, an interior NUL refused.
/// Returns the entries and the position after them.
pub open spec fn dec_named_entries(data: Seq<u8>, pos: int, count: int) -> Option<
    (Seq<(Seq<u8>, u32)>, int),
>
    decreases count,
{
    if count <= 0 {
        Some((Seq::empty(), pos))
    } else if pos + 5 > data.len() {
        None
    } else {
        let index = dec_u32(data.subrange(pos, pos + 4));
        let nlen = data[pos + 4] as int;
        if pos + 5 + nlen > data.len() {
            None
        } else {
            let raw = data.subrange(pos + 5, pos + 5 + nlen);
            let name = if raw.len() > 0 && raw.last() == 0 {
                raw.drop_last()
            } else {
                raw
            };
            if has_nul(name) {
                None
            } else {
                match dec_named_entries(data, pos + 5 + nlen, count - 1) {
                    Some((rest, end)) => Some((seq![(name, index)] + rest, end)),
                    None => None,
                }
            }
        }
    }
}

/// The first entry whose name is `name`, if any.
pub open spec fn spec_find(s: Seq<(Seq<u8>, u32)>, name: Seq<u8>) -> Option<u32>
    decreases s.len(),
{
    if s.len() == 0 {
        None
    } else if s[0].0 == name {
        Some(s[0].1)
    } else {
        spec_find(s.drop_first(), name)
    }
}

/// The index of the first entry whose name is `name`, if any.
pub open spec fn spec_find_at(s: Seq<(Seq<u8>, u32)>, name: Seq<u8>) -> Option<int>
    decreases s.len(),
{
    if s.len() == 0 {
        None
    } else if s[0].0 == name {
        Some(0)
    } else {
        match spec_find_at(s.drop_first(), name) {
            Some(i) => Some(i + 1),
            None => None,
        }
    }
}

/// An order-preserving association of names to block indices.
#[derive(Debug)]
pub struct NamedBlocks {
    blocks: Vec<(Vec<u8>, u32)>,
}

impl NamedBlocks {
    /// The `(name, index)` pairs, in insertion order.
    pub closed spec fn entries(&self) -> Seq<(Seq<u8>, u32)> {
        self.blocks@.map_values(|p: (Vec<u8>, u32)| (p.0@, p.1))
    }

    /// The counter fits its on-disk field.
    pub open spec fn wf(&self) -> bool {
        self.entries().len() <= u32::MAX
    }

    /// Every name fits its on-disk field and holds no NUL.
    pub open spec fn names_wf(&self) -> bool {
        forall|i: int| 0 <= i < self.entries().len() ==> name_wf(#[trigger] self.entries()[i].0)
    }

    /// On-disk form: count, then each entry.
    pub open spec fn enc(&self) -> Seq<u8> {
        enc_u32(self.entries().len() as u32) + crate::io::enc_list(
            self.entries(),
            |e: (Seq<u8>, u32)| enc_named_entry(e),
        )
    }

    pub fn new() -> (r: Self)
        ensures
            r.entries() == Seq::<(Seq<u8>, u32)>::empty(),
            r.wf(),
    {
        let r = NamedBlocks { blocks: Vec::new() };
        assert(r.entries() =~= Seq::<(Seq<u8>, u32)>::empty());
        r
    }

    pub fn len(&self) -> (r: usize)
        ensures
            r == self.entries().len(),
    {
        self.blocks.len()
    }

    pub fn is_empty(&self) -> (r: bool)
        ensures
            r == (self.entries().len() == 0),
    {
        self.blocks.len() == 0
    }

    /// Add a named block: a fresh name goes to the end, a name already
    /// present has its index replaced, as a map insert would.
    pub fn insert(&mut self, name: Vec<u8>, block: u32)
        requires
            old(self).wf(),
            old(self).entries().len() < u32::MAX,
        ensures
            final(self).wf(),
            match spec_find_at(old(self).entries(), name@) {
                Some(i) => final(self).entries() == old(self).entries().update(
                    i,
                    (name@, block),
                ),
                None => final(self).entries() == old(self).entries().push((name@, block)),
            },
    {
        let ghost orig = self.entries();
        let mut i: usize = 0;
        assert(orig.skip(0) =~= orig);
        while i < self.blocks.len()
            invariant
                i <= self.entries().len(),
                self.entries() == orig,
                orig == old(self).entries(),
                orig.len() < u32::MAX,
                match spec_find_at(orig.skip(i as int), name@) {
                    Some(j) => spec_find_at(orig, name@) == Some(j + i),
                    None => spec_find_at(orig, name@) == None::<int>,
                },
            decreases self.entries().len() - i,
        {
            proof {
                assert(orig.skip(i as int)[0] == orig[i as int]);
                assert(orig.skip(i as int).drop_first() =~= orig.skip(i + 1));
            }
            if bytes_eq(self.blocks[i].0.as_slice(), name.as_slice()) {
                proof {
                    assert(spec_find_at(orig.skip(i as int), name@) == Some(0int));
                    assert(spec_find_at(orig, name@) == Some(i as int));
                }
                self.blocks.set(i, (name, block));
                assert(self.entries() =~= orig.update(i as int, (name@, block)));
                return ;
            }
            i = i + 1;
        }
        assert(orig.skip(orig.len() as int) =~= Seq::<(Seq<u8>, u32)>::empty());
        self.blocks.push((name, block));
        assert(self.entries() =~= orig.push((
            self.blocks@.last().0@,
            self.blocks@.last().1,
        )));
    }

    /// A name none of the entries carries is not in the table.
    pub proof fn lemma_find_at_none(s: Seq<(Seq<u8>, u32)>, name: Seq<u8>)
        requires
            forall|j: int| 0 <= j < s.len() ==> (#[trigger] s[j]).0 != name,
        ensures
            spec_find_at(s, name) is None,
        decreases s.len(),
    {
        if s.len() > 0 {
            Self::lemma_find_at_none(s.drop_first(), name);
        }
    }

    /// Get the block index stored under `name`.
    pub fn get(&self, name: &[u8]) -> (r: Option<u32>)
        ensures
            r == spec_find(self.entries(), name@),
    {
        let mut i: usize = 0;
        assert(self.entries().skip(0) =~= self.entries());
        while i < self.blocks.len()
            invariant
                i <= self.entries().len(),
                spec_find(self.entries(), name@) == spec_find(
                    self.entries().skip(i as int),
                    name@,
                ),
            decreases self.entries().len() - i,
        {
            proof {
                assert(self.entries().skip(i as int)[0] == self.entries()[i as int]);
                assert(self.entries().skip(i as int).drop_first() =~= self.entries().skip(i + 1));
            }
            if bytes_eq(self.blocks[i].0.as_slice(), name) {
                return Some(self.blocks[i].1);
            }
            i = i + 1;
        }
        assert(self.entries().skip(self.entries().len() as int) =~= Seq::<(Seq<u8>, u32)>::empty());
        None
    }

    /// Remove the first entry stored under `name`, returning its index.
    pub fn remove(&mut self, name: &[u8]) -> (r: Option<u32>)
        requires
            old(self).wf(),
        ensures
            final(self).wf(),
            match spec_find_at(old(self).entries(), name@) {
                Some(i) => r == Some(old(self).entries()[i].1) && final(self).entries() == old(
                    self,
                ).entries().remove(i),
                None => r == None::<u32> && final(self).entries() == old(self).entries(),
            },
    {
        let mut i: usize = 0;
        assert(self.entries().skip(0) =~= self.entries());
        while i < self.blocks.len()
            invariant
                self == old(self),
                old(self).wf(),
                i <= self.entries().len(),
                match spec_find_at(self.entries().skip(i as int), name@) {
                    Some(j) => spec_find_at(self.entries(), name@) == Some(j + i),
                    None => spec_find_at(self.entries(), name@) == None::<int>,
                },
            decreases self.entries().len() - i,
        {
            proof {
                assert(self.entries().skip(i as int)[0] == self.entries()[i as int]);
                assert(self.entries().skip(i as int).drop_first() =~= self.entries().skip(i + 1));
            }
            if bytes_eq(self.blocks[i].0.as_slice(), name) {
                let entry = self.blocks.remove(i);
                assert(self.entries() =~= old(self).entries().remove(i as int));
                return Some(entry.1);
            }
            i = i + 1;
        }
        assert(self.entries().skip(self.entries().len() as int) =~= Seq::<(Seq<u8>, u32)>::empty());
        None
    }

    /// Hand the association list back.
    pub fn into_inner(self) -> (r: Vec<(Vec<u8>, u32)>)
        ensures
            r@.map_values(|p: (Vec<u8>, u32)| (p.0@, p.1)) == self.entries(),
    {
        self.blocks
    }

    /// Append the table's encoding to the stream.
    ///
    /// Fails if and only if some name is longer than 255 bytes; the stream
    /// is then left partially written, as callers discard it.
    pub fn write_be(&self, w: &mut ByteWriter) -> (r: Result<(), Error>)
        requires
            old(w).wf(),
            old(w).cursor() == old(w).bytes().len(),
            self.wf(),
        ensures
            final(w).wf(),
            final(w).cursor() == final(w).bytes().len(),
            old(w).bytes().len() <= final(w).bytes().len(),
            match r {
                Ok(()) => final(w).bytes() == old(w).bytes() + self.enc() && forall|i: int|
                    0 <= i < self.entries().len() ==> (#[trigger] self.entries()[i]).0.len() <= 255,
                Err(e) => e == Error::InvalidData && exists|i: int|
                    0 <= i < self.entries().len() && (#[trigger] self.entries()[i]).0.len() > 255,
            },
    {
        w.write_u32(self.blocks.len() as u32);
        let ghost header = old(w).bytes() + enc_u32(self.entries().len() as u32);
        let mut i: usize = 0;
        assert(crate::io::enc_list(self.entries().take(0), |e: (Seq<u8>, u32)| enc_named_entry(e)) =~= Seq::<u8>::empty());
        assert(w.bytes() =~= header + crate::io::enc_list(self.entries().take(0), |e: (Seq<u8>, u32)| enc_named_entry(e)));
        while i < self.blocks.len()
            invariant
                i <= self.entries().len(),
                w.wf(),
                w.cursor() == w.bytes().len(),
                header.len() == old(w).bytes().len() + 4,
                w.bytes() == header + crate::io::enc_list(self.entries().take(i as int), |e: (Seq<u8>, u32)| enc_named_entry(e)),
                forall|j: int| 0 <= j < i ==> (#[trigger] self.entries()[j]).0.len() <= 255,
            decreases self.entries().len() - i,
        {
            let name = &self.blocks[i].0;
            if name.len() > 255 {
                proof {
                    assert(self.entries()[i as int].0 == self.blocks@[i as int].0@);
                    assert(self.entries()[i as int].0.len() > 255);
                }
                return Err(Error::InvalidData);
            }
            w.write_u32(self.blocks[i].1);
            w.write_u8(name.len() as u8);
            w.write_bytes(name.as_slice());
            proof {
                crate::io::lemma_enc_list_snoc(self.entries(), i as int, |e: (Seq<u8>, u32)| enc_named_entry(e));
                assert(w.bytes() =~= header + crate::io::enc_list(self.entries().take(i + 1), |e: (Seq<u8>, u32)| enc_named_entry(e)));
            }
            i = i + 1;
        }
        assert(self.entries().take(self.entries().len() as int) =~= self.entries());
        Ok(())
    }

    /// Parse a table out of the start of `data`.
    ///
    /// The result is exactly what the decode of `data` denotes: a count,
    /// then that many entries, one trailing NUL per name stripped.
    pub fn read_be(data: &[u8]) -> (r: Result<Self, Error>)
        ensures
            match r {
                Ok(nb) => nb.wf() && data@.len() >= 4 && dec_named_entries(
                    data@,
                    4,
                    dec_u32(data@.take(4)) as int,
                ) is Some && dec_named_entries(
                    data@,
                    4,
                    dec_u32(data@.take(4)) as int,
                ).unwrap().0 == nb.entries(),
                Err(e) => (e == Error::Truncated || e == Error::InvalidData) && (data@.len() < 4
                    || dec_named_entries(data@, 4, dec_u32(data@.take(4)) as int) is None),
            },
    {
        let mut pos: usize = 0;
        let count = match read_u32(data, &mut pos) {
            Ok(c) => c,
            Err(e) => {
                return Err(e);
            },
        };
        proof {
            assert(data@.take(4) =~= data@.subrange(0, 4));
            lemma_dec_enc_u32(count);
        }
        let ghost total = count as int;
        let mut v: Vec<(Vec<u8>, u32)> = Vec::new();
        let mut i: u32 = 0;
        proof {
            assert(v@.map_values(|p: (Vec<u8>, u32)| (p.0@, p.1)) =~= Seq::<(Seq<u8>, u32)>::empty());
            if dec_named_entries(data@, 4, total) is Some {
                let (rest, end) = dec_named_entries(data@, 4, total).unwrap();
                assert(Seq::<(Seq<u8>, u32)>::empty() + rest =~= rest);
            }
        }
        while i < count
            invariant
                i <= count,
                v@.len() == i,
                4 <= pos <= data@.len(),
                total == count as int,
                dec_u32(data@.take(4)) as int == total,
                dec_named_entries(data@, 4, total) == match dec_named_entries(
                    data@,
                    pos as int,
                    total - i,
                ) {
                    Some((rest, end)) => Some(
                        (v@.map_values(|p: (Vec<u8>, u32)| (p.0@, p.1)) + rest, end),
                    ),
                    None => None::<(Seq<(Seq<u8>, u32)>, int)>,
                },
            decreases count - i,
        {
            let ghost pre_pos = pos as int;
            let ghost pre_entries = v@.map_values(|p: (Vec<u8>, u32)| (p.0@, p.1));
            let index = match read_u32(data, &mut pos) {
                Ok(x) => x,
                Err(e) => {
                    proof {
                        assert(dec_named_entries(data@, pre_pos, total - i) is None);
                    }
                    return Err(e);
                },
            };
            let nlen = match read_u8(data, &mut pos) {
                Ok(x) => x,
                Err(e) => {
                    proof {
                        assert(dec_named_entries(data@, pre_pos, total - i) is None);
                    }
                    return Err(e);
                },
            };
            proof {
                lemma_dec_enc_u32(index);
                assert(dec_u32(data@.subrange(pre_pos, pre_pos + 4)) == index);
                assert(enc_u8(nlen)[0] == nlen);
                assert(data@.subrange(pre_pos + 4, pre_pos + 5)[0] == data@[pre_pos + 4]);
                assert(data@[pre_pos + 4] == nlen);
            }
            let mut name = match read_exact(data, &mut pos, nlen as usize) {
                Ok(x) => x,
                Err(e) => {
                    proof {
                        assert(pre_pos + 5 + nlen > data@.len());
                        assert(dec_named_entries(data@, pre_pos, total - i) is None);
                    }
                    return Err(e);
                },
            };
            let ghost raw = name@;
            let ghost spec_name = if raw.len() > 0 && raw.last() == 0 {
                raw.drop_last()
            } else {
                raw
            };
            // strip one trailing NUL, refuse an interior one
            if name.len() > 0 && name[name.len() - 1] == 0 {
                let _ = name.pop();
                assert(name@ =~= raw.drop_last());
            }
            assert(name@ == spec_name);
            let mut k: usize = 0;
            while k < name.len()
                invariant
                    k <= name@.len(),
                    name@ == spec_name,
                    raw == data@.subrange(pre_pos + 5, pre_pos + 5 + nlen),
                    spec_name == (if raw.len() > 0 && raw.last() == 0 {
                        raw.drop_last()
                    } else {
                        raw
                    }),
                    0 <= pre_pos,
                    pre_pos + 5 + nlen <= data@.len(),
                    nlen == data@[pre_pos + 4] as int,
                    index == dec_u32(data@.subrange(pre_pos, pre_pos + 4)),
                    0 < total - i,
                    dec_u32(data@.take(4)) as int == total,
                    dec_named_entries(data@, 4, total) == match dec_named_entries(
                        data@,
                        pre_pos,
                        total - i,
                    ) {
                        Some((rest, end)) => Some(
                            (v@.map_values(|p: (Vec<u8>, u32)| (p.0@, p.1)) + rest, end),
                        ),
                        None => None::<(Seq<(Seq<u8>, u32)>, int)>,
                    },
                    forall|j: int| 0 <= j < k ==> name@[j] != 0,
                decreases name@.len() - k,
            {
                if name[k] == 0 {
                    proof {
                        assert(has_nul(spec_name));
                        assert(dec_named_entries(data@, pre_pos, total - i) is None);
                        assert(dec_named_entries(data@, 4, total) is None);
                    }
                    return Err(Error::InvalidData);
                }
                k = k + 1;
            }
            assert(!has_nul(name@));
            v.push((name, index));
            proof {
                assert(v@.map_values(|p: (Vec<u8>, u32)| (p.0@, p.1)) =~= pre_entries.push(
                    (v@.last().0@, v@.last().1),
                ));
                assert(pre_entries + seq![(v@.last().0@, v@.last().1)] =~= v@.map_values(
                    |p: (Vec<u8>, u32)| (p.0@, p.1),
                ));
                assert(dec_named_entries(data@, pre_pos, total - i) == match dec_named_entries(
                    data@,
                    pos as int,
                    total - i - 1,
                ) {
                    Some((rest, end)) => Some((seq![(v@.last().0@, v@.last().1)] + rest, end)),
                    None => None::<(Seq<(Seq<u8>, u32)>, int)>,
                });
                if dec_named_entries(data@, pos as int, total - i - 1) is Some {
                    let (rest, end) = dec_named_entries(data@, pos as int, total - i - 1).unwrap();
                    assert(pre_entries + (seq![(v@.last().0@, v@.last().1)] + rest)
                        =~= v@.map_values(|p: (Vec<u8>, u32)| (p.0@, p.1)) + rest);
                }
            }
            i = i + 1;
        }
        let r = NamedBlocks { blocks: v };
        proof {
            assert(dec_named_entries(data@, pos as int, 0) == Some(
                (Seq::<(Seq<u8>, u32)>::empty(), pos as int),
            ));
            assert(r.entries() + Seq::<(Seq<u8>, u32)>::empty() =~= r.entries());
        }
        Ok(r)
    }
}

/// Well-formed entries decode to exactly what was encoded, consuming
/// exactly their encoding.
proof fn lemma_dec_named_of_enc(data: Seq<u8>, pos: int, entries: Seq<(Seq<u8>, u32)>)
    requires
        0 <= pos,
        pos + enc_list(entries, |e: (Seq<u8>, u32)| enc_named_entry(e)).len() <= data.len(),
        data.subrange(pos, pos + enc_list(entries, |e: (Seq<u8>, u32)| enc_named_entry(e)).len())
            == enc_list(entries, |e: (Seq<u8>, u32)| enc_named_entry(e)),
        forall|i: int| 0 <= i < entries.len() ==> name_wf(#[trigger] entries[i].0),
    ensures
        dec_named_entries(data, pos, entries.len() as int) == Some(
            (entries, pos + enc_list(entries, |e: (Seq<u8>, u32)| enc_named_entry(e)).len()),
        ),
    decreases entries.len(),
{
    let f = |e: (Seq<u8>, u32)| enc_named_entry(e);
    if entries.len() == 0 {
        assert(dec_named_entries(data, pos, 0) == Some((Seq::<(Seq<u8>, u32)>::empty(), pos)));
        assert(entries =~= Seq::<(Seq<u8>, u32)>::empty());
    } else {
        let e0 = entries[0];
        let n = e0.0.len() as int;
        let head = enc_named_entry(e0);
        assert(head.len() == 5 + n);
        assert(enc_list(entries, f) == head + enc_list(entries.drop_first(), f));
        let total = enc_list(entries, f).len() as int;
        let whole = data.subrange(pos, pos + total);
        assert(whole.subrange(0, 5 + n) =~= head);
        assert(data.subrange(pos, pos + 5 + n) =~= whole.subrange(0, 5 + n));
        assert(data.subrange(pos, pos + 4) =~= head.subrange(0, 4));
        assert(head.subrange(0, 4) =~= enc_u32(e0.1));
        lemma_dec_enc_u32(e0.1);
        assert(dec_u32(data.subrange(pos, pos + 4)) == e0.1);
        assert(data[pos + 4] == head[4]);
        assert(head[4] == e0.0.len() as u8);
        assert(e0.0.len() <= 255);
        assert((e0.0.len() as u8) as int == n);
        let raw = data.subrange(pos + 5, pos + 5 + n);
        assert(raw =~= data.subrange(pos, pos + 5 + n).subrange(5, 5 + n));
        assert(head.subrange(5, 5 + n) =~= e0.0);
        assert(raw =~= e0.0);
        assert(!has_nul(e0.0));
        if raw.len() > 0 {
            assert(raw.last() == e0.0[n - 1]);
            assert(raw.last() != 0);
        }
        assert(data.subrange(
            pos + 5 + n,
            pos + 5 + n + enc_list(entries.drop_first(), f).len(),
        ) =~= whole.subrange(5 + n, whole.len() as int));
        assert(whole.subrange(5 + n, whole.len() as int) =~= enc_list(entries.drop_first(), f));
        lemma_dec_named_of_enc(data, pos + 5 + n, entries.drop_first());
        assert(seq![(e0.0, e0.1)] + entries.drop_first() =~= entries);
        assert((e0.0, e0.1) == e0);
    }
}

impl NamedBlocks {
    /// Writing a table whose names fit their fields and decoding the
    /// bytes gives back exactly the same entries, in the same order.
    pub proof fn lemma_roundtrip(self)
        requires
            self.wf(),
            self.names_wf(),
        ensures
            self.enc().len() >= 4,
            dec_u32(self.enc().take(4)) == self.entries().len() as u32,
            dec_named_entries(self.enc(), 4, self.entries().len() as int) == Some(
                (self.entries(), self.enc().len() as int),
            ),
    {
        let f = |e: (Seq<u8>, u32)| enc_named_entry(e);
        let data = self.enc();
        assert(data.take(4) =~= enc_u32(self.entries().len() as u32));
        lemma_dec_enc_u32(self.entries().len() as u32);
        assert(data.subrange(4, 4 + enc_list(self.entries(), f).len() as int) =~= enc_list(
            self.entries(),
            f,
        ));
        lemma_dec_named_of_enc(data, 4, self.entries());
    }
}

/// Whether two byte strings hold the same bytes.
pub fn bytes_eq(a: &[u8], b: &[u8]) -> (r: bool)
    ensures
        r == (a@ == b@),
{
    if a.len() != b.len() {
        assert(a@.len() != b@.len());
        return false;
    }
    let mut i: usize = 0;
    while i < a.len()
        invariant
            i <= a@.len(),
            a@.len() == b@.len(),
            forall|j: int| 0 <= j < i ==> a@[j] == b@[j],
        decreases a@.len() - i,
    {
        if a[i] != b[i] {
            return false;
        }
        i = i + 1;
    }
    assert(a@ =~= b@);
    true
}

} // verus!
