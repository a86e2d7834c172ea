//! Per-architecture file statistics, stored under their own name.

use vstd::prelude::*;

verus! {

use crate::error::Error;
use crate::io::ByteWriter;
use crate::io::enc_list;
use crate::io::enc_u32;
use crate::io::lemma_enc_list_snoc;
use crate::io::read_u32;
use crate::named_blocks::dec_u32;
use crate::named_blocks::lemma_dec_enc_u32;

/// One accumulator: a CPU type and the byte total it has gathered.
#[derive(Clone, Copy, Debug, PartialEq, Eq, Structural)]
pub struct BomInfoEntry {
    pub cpu_type: u32,
    pub file_size: u32,
}

impl BomInfoEntry {
    /// On disk: the CPU type, a zero word, the total, a zero word.
    pub open spec fn enc(&self) -> Seq<u8> {
        enc_u32(self.cpu_type) + enc_u32(0) + enc_u32(self.file_size) + enc_u32(0)
    }
}

/// The first accumulator for a CPU type, if any.
pub open spec fn spec_find_cpu(s: Seq<BomInfoEntry>, cpu: u32) -> Option<int>
    decreases s.len(),
{
    if s.len() == 0 {
        None
    } else if s[0].cpu_type == cpu {
        Some(0)
    } else {
        match spec_find_cpu(s.drop_first(), cpu) {
            Some(i) => Some(i + 1),
            None => None,
        }
    }
}

/// The accumulators after adding `size` bytes for `cpu`; the counter
/// wraps at thirty-two bits, as the stored field does.
pub open spec fn spec_accumulate(s: Seq<BomInfoEntry>, cpu: u32, size: u32) -> Seq<BomInfoEntry> {
    match spec_find_cpu(s, cpu) {
        Some(j) => s.update(
            j,
            BomInfoEntry { cpu_type: cpu, file_size: (s[j].file_size + size) as u32 },
        ),
        None => s.push(BomInfoEntry { cpu_type: cpu, file_size: size }),
    }
}

/// Decode `count` accumulators at `pos`; the two zero words of each
/// record are ignored.
pub open spec fn dec_bom_info_entries(data: Seq<u8>, pos: int, count: int) -> Option<
    Seq<BomInfoEntry>,
>
    decreases count,
{
    if count <= 0 {
        Some(Seq::empty())
    } else if pos + 16 > data.len() {
        None
    } else {
        let e = BomInfoEntry {
            cpu_type: dec_u32(data.subrange(pos, pos + 4)),
            file_size: dec_u32(data.subrange(pos + 8, pos + 12)),
        };
        match dec_bom_info_entries(data, pos + 16, count - 1) {
            Some(rest) => Some(seq![e] + rest),
            None => None,
        }
    }
}

/// File path statistics: the total size gathered for each binary
/// architecture, and for everything else under CPU type zero.
#[derive(Debug)]
pub struct BomInfo {
    num_paths: u32,
    entries: Vec<BomInfoEntry>,
}

impl BomInfo {
    pub closed spec fn spec_num_paths(&self) -> u32 {
        self.num_paths
    }

    pub closed spec fn spec_entries(&self) -> Seq<BomInfoEntry> {
        self.entries@
    }

    pub open spec fn wf(&self) -> bool {
        self.spec_entries().len() <= u32::MAX
    }

    /// On disk: version 1, the path count, then counted accumulators.
    pub open spec fn enc(&self) -> Seq<u8> {
        enc_u32(1) + enc_u32(self.spec_num_paths()) + enc_u32(self.spec_entries().len() as u32)
            + enc_list(self.spec_entries(), |e: BomInfoEntry| e.enc())
    }

    /// Empty statistics.
    pub fn new_empty() -> (r: Self)
        ensures
            r.spec_num_paths() == 0,
            r.spec_entries() == Seq::<BomInfoEntry>::empty(),
            r.wf(),
    {
        let r = BomInfo { num_paths: 0, entries: Vec::new() };
        assert(r.spec_entries() =~= Seq::<BomInfoEntry>::empty());
        r
    }

    /// The total number of paths counted.
    pub fn num_paths(&self) -> (r: u32)
        ensures
            r == self.spec_num_paths(),
    {
        self.num_paths
    }

    /// The accumulators, in first-seen order.
    pub fn entries(&self) -> (r: &Vec<BomInfoEntry>)
        ensures
            r@ == self.spec_entries(),
    {
        &self.entries
    }

    /// Add `file_size` bytes for `cpu_type` to the statistics; both the
    /// per-architecture total and the path counter wrap at 32 bits.
    ///
    /// Use `cpu_type == 0` for non-architecture-specific files.
    pub fn accumulate(&mut self, cpu_type: u32, file_size: u32)
        requires
            old(self).wf(),
            old(self).spec_entries().len() < u32::MAX,
        ensures
            final(self).wf(),
            final(self).spec_entries() == spec_accumulate(
                old(self).spec_entries(),
                cpu_type,
                file_size,
            ),
            final(self).spec_num_paths() == (old(self).spec_num_paths() + 1) as u32,
            final(self).spec_entries().len() <= old(self).spec_entries().len() + 1,
    {
        let ghost orig = self.entries@;
        let mut i: usize = 0;
        assert(self.entries@.skip(0) =~= self.entries@);
        while i < self.entries.len()
            invariant
                i <= self.entries@.len(),
                self.entries@ == orig,
                orig == old(self).spec_entries(),
                orig.len() < u32::MAX,
                self.num_paths == old(self).spec_num_paths(),
                match spec_find_cpu(orig.skip(i as int), cpu_type) {
                    Some(j) => spec_find_cpu(orig, cpu_type) == Some(j + i),
                    None => spec_find_cpu(orig, cpu_type) == None::<int>,
                },
            decreases self.entries@.len() - i,
        {
            proof {
                assert(orig.skip(i as int)[0] == orig[i as int]);
                assert(orig.skip(i as int).drop_first() =~= orig.skip(i + 1));
            }
            if self.entries[i].cpu_type == cpu_type {
                let old_size = self.entries[i].file_size;
                #[verifier::truncate]
                let new_size = (old_size as u64 + file_size as u64) as u32;
                assert(new_size == (old_size + file_size) as u32) by (bit_vector)
                    requires
                        new_size == ((old_size as u64 + file_size as u64) as u32),
                ;
                proof {
                    assert(spec_find_cpu(orig.skip(i as int), cpu_type) == Some(0int));
                    assert(spec_find_cpu(orig, cpu_type) == Some(i as int));
                }
                self.entries.set(i, BomInfoEntry { cpu_type, file_size: new_size });
                self.num_paths = wrapping_inc(self.num_paths);
                proof {
                    assert(self.entries@ =~= orig.update(
                        i as int,
                        BomInfoEntry {
                            cpu_type,
                            file_size: (orig[i as int].file_size + file_size) as u32,
                        },
                    ));
                }
                return ;
            }
            i = i + 1;
        }
        assert(orig.skip(orig.len() as int) =~= Seq::<BomInfoEntry>::empty());
        self.entries.push(BomInfoEntry { cpu_type, file_size });
        self.num_paths = wrapping_inc(self.num_paths);
    }

    /// Append the statistics' encoding to the stream.
    pub fn write_be(&self, w: &mut ByteWriter)
        requires
            old(w).wf(),
            old(w).cursor() == old(w).bytes().len(),
            self.wf(),
        ensures
            final(w).wf(),
            final(w).cursor() == final(w).bytes().len(),
            final(w).bytes() == old(w).bytes() + self.enc(),
    {
        w.write_u32(1);
        w.write_u32(self.num_paths);
        w.write_u32(self.entries.len() as u32);
        let ghost header = old(w).bytes() + enc_u32(1) + enc_u32(self.spec_num_paths()) + enc_u32(
            self.spec_entries().len() as u32,
        );
        assert(w.bytes() =~= header);
        let mut i: usize = 0;
        assert(enc_list(self.spec_entries().take(0), |e: BomInfoEntry| e.enc()) =~= Seq::<
            u8,
        >::empty());
        assert(w.bytes() =~= header + enc_list(
            self.spec_entries().take(0),
            |e: BomInfoEntry| e.enc(),
        ));
        while i < self.entries.len()
            invariant
                i <= self.spec_entries().len(),
                w.wf(),
                w.cursor() == w.bytes().len(),
                w.bytes() == header + enc_list(
                    self.spec_entries().take(i as int),
                    |e: BomInfoEntry| e.enc(),
                ),
            decreases self.spec_entries().len() - i,
        {
            let e = self.entries[i];
            w.write_u32(e.cpu_type);
            w.write_u32(0);
            w.write_u32(e.file_size);
            w.write_u32(0);
            proof {
                lemma_enc_list_snoc(self.spec_entries(), i as int, |e: BomInfoEntry| e.enc());
                assert(w.bytes() =~= header + enc_list(
                    self.spec_entries().take(i + 1),
                    |e: BomInfoEntry| e.enc(),
                ));
            }
            i = i + 1;
        }
        assert(self.spec_entries().take(self.spec_entries().len() as int) =~= self.spec_entries());
    }

    /// Parse statistics out of the start of `data`.
    pub fn read_be(data: &[u8]) -> (r: Result<Self, Error>)
        ensures
            match r {
                Ok(b) => b.wf() && data@.len() >= 12 && dec_u32(data@.subrange(0, 4)) == 1
                    && b.spec_num_paths() == dec_u32(data@.subrange(4, 8))
                    && dec_bom_info_entries(data@, 12, dec_u32(data@.subrange(8, 12)) as int)
                    == Some(b.spec_entries()),
                Err(e) => (e == Error::Truncated || e == Error::UnsupportedVersion) && (data@.len()
                    < 12 || dec_u32(data@.subrange(0, 4)) != 1 || dec_bom_info_entries(
                    data@,
                    12,
                    dec_u32(data@.subrange(8, 12)) as int,
                ) is None),
            },
    {
        let mut pos: usize = 0;
        let version = match read_u32(data, &mut pos) {
            Ok(v) => v,
            Err(e) => {
                return Err(e);
            },
        };
        proof {
            lemma_dec_enc_u32(version);
        }
        if version != 1 {
            return Err(Error::UnsupportedVersion);
        }
        let num_paths = match read_u32(data, &mut pos) {
            Ok(v) => v,
            Err(e) => {
                return Err(e);
            },
        };
        let count = match read_u32(data, &mut pos) {
            Ok(v) => v,
            Err(e) => {
                return Err(e);
            },
        };
        proof {
            lemma_dec_enc_u32(num_paths);
            lemma_dec_enc_u32(count);
            assert(data@.subrange(0, 4) =~= enc_u32(version));
            assert(data@.subrange(4, 8) =~= enc_u32(num_paths));
            assert(data@.subrange(8, 12) =~= enc_u32(count));
        }
        let ghost total = count as int;
        let mut v: Vec<BomInfoEntry> = Vec::new();
        let mut i: u32 = 0;
        proof {
            if dec_bom_info_entries(data@, 12, total) is Some {
                let rest = dec_bom_info_entries(data@, 12, total).unwrap();
                assert(Seq::<BomInfoEntry>::empty() + rest =~= rest);
            }
        }
        while i < count
            invariant
                i <= count,
                v@.len() == i,
                12 <= pos <= data@.len(),
                pos == 12 + 16 * i,
                total == count as int,
                dec_u32(data@.subrange(8, 12)) == count,
                dec_u32(data@.subrange(0, 4)) == 1,
                dec_bom_info_entries(data@, 12, total) == match dec_bom_info_entries(
                    data@,
                    pos as int,
                    total - i,
                ) {
                    Some(rest) => Some(v@ + rest),
                    None => None::<Seq<BomInfoEntry>>,
                },
            decreases count - i,
        {
            let ghost pre_pos = pos as int;
            let ghost pre = v@;
            let cpu_type = match read_u32(data, &mut pos) {
                Ok(x) => x,
                Err(e) => {
                    proof {
                        assert(dec_bom_info_entries(data@, pre_pos, total - i) is None);
                    }
                    return Err(e);
                },
            };
            let _x1 = match read_u32(data, &mut pos) {
                Ok(x) => x,
                Err(e) => {
                    proof {
                        assert(dec_bom_info_entries(data@, pre_pos, total - i) is None);
                    }
                    return Err(e);
                },
            };
            let file_size = match read_u32(data, &mut pos) {
                Ok(x) => x,
                Err(e) => {
                    proof {
                        assert(dec_bom_info_entries(data@, pre_pos, total - i) is None);
                    }
                    return Err(e);
                },
            };
            let _x2 = match read_u32(data, &mut pos) {
                Ok(x) => x,
                Err(e) => {
                    proof {
                        assert(dec_bom_info_entries(data@, pre_pos, total - i) is None);
                    }
                    return Err(e);
                },
            };
            let e = BomInfoEntry { cpu_type, file_size };
            v.push(e);
            proof {
                lemma_dec_enc_u32(cpu_type);
                lemma_dec_enc_u32(file_size);
                assert(data@.subrange(pre_pos, pre_pos + 4) =~= enc_u32(cpu_type));
                assert(data@.subrange(pre_pos + 8, pre_pos + 12) =~= enc_u32(file_size));
                assert(dec_bom_info_entries(data@, pre_pos, total - i) == match dec_bom_info_entries(
                    data@,
                    pos as int,
                    total - i - 1,
                ) {
                    Some(rest) => Some(seq![e] + rest),
                    None => None::<Seq<BomInfoEntry>>,
                });
                assert(v@ =~= pre.push(e));
                if dec_bom_info_entries(data@, pos as int, total - i - 1) is Some {
                    let rest = dec_bom_info_entries(data@, pos as int, total - i - 1).unwrap();
                    assert(pre + (seq![e] + rest) =~= v@ + rest);
                }
            }
            i = i + 1;
        }
        let r = BomInfo { num_paths, entries: v };
        proof {
            assert(dec_bom_info_entries(data@, pos as int, 0) == Some(
                Seq::<BomInfoEntry>::empty(),
            ));
            assert(r.spec_entries() + Seq::<BomInfoEntry>::empty() =~= r.spec_entries());
        }
        Ok(r)
    }
}

/// The encoding of an accumulator list is sixteen bytes per record.
proof fn lemma_enc_info_list_len(s: Seq<BomInfoEntry>)
    ensures
        enc_list(s, |e: BomInfoEntry| e.enc()).len() == 16 * s.len(),
    decreases s.len(),
{
    if s.len() > 0 {
        lemma_enc_info_list_len(s.drop_first());
    }
}

/// Accumulators decode to exactly the list that was encoded.
proof fn lemma_dec_info_of_enc(data: Seq<u8>, pos: int, entries: Seq<BomInfoEntry>)
    requires
        0 <= pos,
        pos + 16 * entries.len() <= data.len(),
        data.subrange(pos, pos + 16 * entries.len()) == enc_list(
            entries,
            |e: BomInfoEntry| e.enc(),
        ),
    ensures
        dec_bom_info_entries(data, pos, entries.len() as int) == Some(entries),
    decreases entries.len(),
{
    let f = |e: BomInfoEntry| e.enc();
    if entries.len() == 0 {
        assert(dec_bom_info_entries(data, pos, 0) == Some(Seq::<BomInfoEntry>::empty()));
        assert(entries =~= Seq::<BomInfoEntry>::empty());
    } else {
        let e0 = entries[0];
        lemma_enc_info_list_len(entries);
        lemma_enc_info_list_len(entries.drop_first());
        assert(enc_list(entries, f) == e0.enc() + enc_list(entries.drop_first(), f));
        assert(e0.enc().len() == 16);
        assert(data.subrange(pos, pos + 16) =~= e0.enc());
        assert(data.subrange(pos, pos + 4) =~= data.subrange(pos, pos + 16).subrange(0, 4));
        assert(data.subrange(pos + 8, pos + 12) =~= data.subrange(pos, pos + 16).subrange(8, 12));
        assert(e0.enc().subrange(0, 4) =~= enc_u32(e0.cpu_type));
        assert(e0.enc().subrange(8, 12) =~= enc_u32(e0.file_size));
        lemma_dec_enc_u32(e0.cpu_type);
        lemma_dec_enc_u32(e0.file_size);
        let whole = data.subrange(pos, pos + 16 * entries.len());
        assert(whole.subrange(16, whole.len() as int) =~= enc_list(entries.drop_first(), f));
        assert(data.subrange(pos + 16, pos + 16 + 16 * (entries.drop_first().len() as int))
            =~= whole.subrange(16, whole.len() as int));
        lemma_dec_info_of_enc(data, pos + 16, entries.drop_first());
        assert(seq![BomInfoEntry { cpu_type: e0.cpu_type, file_size: e0.file_size }]
            + entries.drop_first() =~= entries);
    }
}

impl BomInfo {
    /// Writing statistics and decoding the bytes gives back the same
    /// path count and the same accumulators, in the same order.
    pub proof fn lemma_roundtrip(self)
        requires
            self.wf(),
        ensures
            self.enc().len() >= 12,
            dec_u32(self.enc().subrange(0, 4)) == 1,
            dec_u32(self.enc().subrange(4, 8)) == self.spec_num_paths(),
            dec_bom_info_entries(self.enc(), 12, self.spec_entries().len() as int) == Some(
                self.spec_entries(),
            ),
    {
        let f = |e: BomInfoEntry| e.enc();
        let data = self.enc();
        lemma_enc_info_list_len(self.spec_entries());
        assert(data.subrange(0, 4) =~= enc_u32(1));
        assert(data.subrange(4, 8) =~= enc_u32(self.spec_num_paths()));
        lemma_dec_enc_u32(1);
        lemma_dec_enc_u32(self.spec_num_paths());
        assert(data.subrange(12, 12 + 16 * (self.spec_entries().len() as int)) =~= enc_list(
            self.spec_entries(),
            f,
        ));
        lemma_dec_info_of_enc(data, 12, self.spec_entries());
    }
}

/// Increment modulo 2^32.
fn wrapping_inc(v: u32) -> (r: u32)
    ensures
        r == (v + 1) as u32,
{
    if v == u32::MAX {
        assert((u32::MAX + 1) as u32 == 0) by (bit_vector);
        0
    } else {
        v + 1
    }
}

} // verus!
