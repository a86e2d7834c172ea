//! The 64-bit size table: metadata block index to true file size.

use vstd::prelude::*;

verus! {

use crate::blocks::Blocks;
use crate::error::Error;
use crate::io::ByteWriter;
use crate::io::read_u32;
use crate::io::read_u64;
use crate::blocks::Block;
use crate::blocks::block_holds;
use crate::blocks::lemma_block_holds_frame;
use crate::io::enc_u32;
use crate::io::enc_u64;
use crate::tree::read_tree;
use crate::tree::tree_written_at;
use crate::tree::write_tree;

/// The first size stored for a block index, if any.
pub open spec fn spec_size_for(s: Seq<(u32, u64)>, block: u32) -> Option<u64>
    decreases s.len(),
{
    if s.len() == 0 {
        None
    } else if s[0].0 == block {
        Some(s[0].1)
    } else {
        spec_size_for(s.drop_first(), block)
    }
}

/// Metadata block index to 64-bit file size mapping.
///
/// Populated while metadata is written, for files past 4 GiB; consulted
/// while metadata is read back.
#[derive(Debug)]
pub struct FileSizes64 {
    entries: Vec<(u32, u64)>,
}

impl FileSizes64 {
    pub closed spec fn entries(&self) -> Seq<(u32, u64)> {
        self.entries@
    }

    pub open spec fn wf(&self) -> bool {
        self.entries().len() <= u32::MAX
    }

    pub fn new() -> (r: Self)
        ensures
            r.entries() == Seq::<(u32, u64)>::empty(),
            r.wf(),
    {
        let r = FileSizes64 { entries: Vec::new() };
        assert(r.entries() =~= Seq::<(u32, u64)>::empty());
        r
    }

    pub fn len(&self) -> (r: usize)
        ensures
            r == self.entries().len(),
    {
        self.entries.len()
    }

    pub fn is_empty(&self) -> (r: bool)
        ensures
            r == (self.entries().len() == 0),
    {
        self.entries.len() == 0
    }

    /// The size recorded for a metadata block, if any.
    pub fn get(&self, block: u32) -> (r: Option<u64>)
        ensures
            r == spec_size_for(self.entries(), block),
    {
        let mut i: usize = 0;
        assert(self.entries().skip(0) =~= self.entries());
        while i < self.entries.len()
            invariant
                i <= self.entries().len(),
                spec_size_for(self.entries(), block) == spec_size_for(
                    self.entries().skip(i as int),
                    block,
                ),
            decreases self.entries().len() - i,
        {
            proof {
                assert(self.entries().skip(i as int)[0] == self.entries()[i as int]);
                assert(self.entries().skip(i as int).drop_first() =~= self.entries().skip(i + 1));
            }
            if self.entries[i].0 == block {
                return Some(self.entries[i].1);
            }
            i = i + 1;
        }
        assert(self.entries().skip(self.entries().len() as int) =~= Seq::<(u32, u64)>::empty());
        None
    }

    /// Record the size for a fresh metadata block at the end.
    pub fn insert(&mut self, block: u32, size: u64)
        requires
            old(self).wf(),
            old(self).entries().len() < u32::MAX,
        ensures
            final(self).wf(),
            final(self).entries() == old(self).entries().push((block, size)),
    {
        self.entries.push((block, size));
    }

    /// Hand the pairs back.
    pub fn into_inner(self) -> (r: Vec<(u32, u64)>)
        ensures
            r@ == self.entries(),
    {
        self.entries
    }

    /// Write the table as a tree keyed by the 64-bit size, each size and
    /// block index in a block of its own, and return the descriptor's
    /// index.  On success the `k`-th entry's size sits in block
    /// `base + 2k` and its metadata block index in block `base + 2k + 1`,
    /// where `base` is the store's size before the call, and those pairs
    /// form the written tree.
    #[verifier::rlimit(100)]
    #[verifier::spinoff_prover]
    pub fn write_block(&self, w: &mut ByteWriter, blocks: &mut Blocks) -> (r: Result<u32, Error>)
        requires
            old(w).wf(),
            old(w).cursor() == old(w).bytes().len(),
            old(blocks).wf(),
            old(blocks).list().len() >= 1,
            self.wf(),
        ensures
            final(w).wf(),
            final(w).cursor() == final(w).bytes().len(),
            old(w).bytes().len() <= final(w).bytes().len(),
            final(blocks).wf(),
            final(blocks).free_list() == old(blocks).free_list(),
            final(blocks).list().len() <= old(blocks).list().len() + 4 * self.entries().len() + 4,
            match r {
                Ok(i) => ({
                    let base = old(blocks).list().len() as int;
                    &&& final(blocks).list().len() > old(blocks).list().len()
                    &&& final(blocks).list().len() <= old(blocks).list().len() + 4
                        * self.entries().len() + 3
                    &&& i == final(blocks).list().len() - 1
                    &&& (forall|k: int|
                        0 <= k < self.entries().len() ==> block_holds(
                            final(w).bytes(),
                            #[trigger] final(blocks).list()[base + 2 * k],
                            enc_u64(self.entries()[k].1),
                        ) && block_holds(
                            final(w).bytes(),
                            final(blocks).list()[base + 2 * k + 1],
                            enc_u32(self.entries()[k].0),
                        ))
                    &&& tree_written_at(
                        base + 2 * self.entries().len(),
                        *final(w),
                        *final(blocks),
                        i,
                        Seq::new(
                            self.entries().len(),
                            |k: int| (((base + 2 * k) as u32), ((base + 2 * k + 1) as u32)),
                        ),
                        128,
                    )
                }),
                Err(e) => e == Error::FileTooLarge && (final(w).bytes().len() > u32::MAX || 2
                    * final(blocks).list().len() + 8192 > u32::MAX),
            },
    {
        let ghost base = old(blocks).list().len() as int;
        let mut pairs: Vec<(u32, u32)> = Vec::new();
        let mut i: usize = 0;
        while i < self.entries.len()
            invariant
                i <= self.entries().len(),
                self.entries().len() <= u32::MAX,
                pairs@.len() == i,
                base == old(blocks).list().len() as int,
                w.wf(),
                w.cursor() == w.bytes().len(),
                old(w).bytes().len() <= w.bytes().len(),
                blocks.wf(),
                blocks.free_list() == old(blocks).free_list(),
                blocks.list().len() == old(blocks).list().len() + 2 * i,
                blocks.list().len() >= 1,
                forall|k: int|
                    0 <= k < i ==> #[trigger] pairs@[k] == (
                        ((base + 2 * k) as u32),
                        ((base + 2 * k + 1) as u32),
                    ),
                forall|k: int|
                    0 <= k < i ==> block_holds(
                        w.bytes(),
                        #[trigger] blocks.list()[base + 2 * k],
                        enc_u64(self.entries()[k].1),
                    ) && block_holds(
                        w.bytes(),
                        blocks.list()[base + 2 * k + 1],
                        enc_u32(self.entries()[k].0),
                    ),
            decreases self.entries().len() - i,
        {
            let ghost pre_bytes = w.bytes();
            let ghost pre_list = blocks.list();
            let (block, size) = self.entries[i];
            let start = w.position();
            w.write_u64(size);
            let key = match blocks.append(start, w.position()) {
                Ok(x) => x,
                Err(e) => {
                    return Err(e);
                },
            };
            let start2 = w.position();
            w.write_u32(block);
            let value = match blocks.append(start2, w.position()) {
                Ok(x) => x,
                Err(e) => {
                    return Err(e);
                },
            };
            pairs.push((key, value));
            proof {
                assert(pairs@[i as int] == (((base + 2 * i) as u32), ((base + 2 * i + 1) as u32)));
                assert(w.bytes().take(pre_bytes.len() as int) =~= pre_bytes);
                assert(w.bytes().subrange(start as int, start + 8) =~= enc_u64(
                    self.entries()[i as int].1,
                ));
                assert(w.bytes().subrange(start2 as int, start2 + 4) =~= enc_u32(
                    self.entries()[i as int].0,
                ));
                assert(block_holds(
                    w.bytes(),
                    blocks.list()[base + 2 * i],
                    enc_u64(self.entries()[i as int].1),
                ));
                assert(block_holds(
                    w.bytes(),
                    blocks.list()[base + 2 * i + 1],
                    enc_u32(self.entries()[i as int].0),
                ));
                assert forall|k: int| 0 <= k < i + 1 implies block_holds(
                    w.bytes(),
                    #[trigger] blocks.list()[base + 2 * k],
                    enc_u64(self.entries()[k].1),
                ) && block_holds(
                    w.bytes(),
                    blocks.list()[base + 2 * k + 1],
                    enc_u32(self.entries()[k].0),
                ) by {
                    if k < i {
                        assert(blocks.list()[base + 2 * k] == pre_list[base + 2 * k]);
                        assert(blocks.list()[base + 2 * k + 1] == pre_list[base + 2 * k + 1]);
                        lemma_block_holds_frame(
                            pre_bytes,
                            w.bytes(),
                            pre_list[base + 2 * k],
                            enc_u64(self.entries()[k].1),
                        );
                        lemma_block_holds_frame(
                            pre_bytes,
                            w.bytes(),
                            pre_list[base + 2 * k + 1],
                            enc_u32(self.entries()[k].0),
                        );
                    }
                }
            }
            i = i + 1;
        }
        let ghost pre_bytes = w.bytes();
        let ghost pre_list = blocks.list();
        let desc = match write_tree(&pairs, 128, w, blocks) {
            Ok(x) => x,
            Err(e) => {
                return Err(e);
            },
        };
        proof {
            let e = self.entries().len() as int;
            assert forall|k: int| 0 <= k < e implies block_holds(
                w.bytes(),
                #[trigger] blocks.list()[base + 2 * k],
                enc_u64(self.entries()[k].1),
            ) && block_holds(
                w.bytes(),
                blocks.list()[base + 2 * k + 1],
                enc_u32(self.entries()[k].0),
            ) by {
                assert(blocks.list()[base + 2 * k] == pre_list[base + 2 * k]);
                assert(blocks.list()[base + 2 * k + 1] == pre_list[base + 2 * k + 1]);
                lemma_block_holds_frame(
                    pre_bytes,
                    w.bytes(),
                    pre_list[base + 2 * k],
                    enc_u64(self.entries()[k].1),
                );
                lemma_block_holds_frame(
                    pre_bytes,
                    w.bytes(),
                    pre_list[base + 2 * k + 1],
                    enc_u32(self.entries()[k].0),
                );
            }
            assert(pairs@ =~= Seq::new(
                self.entries().len(),
                |k: int| (((base + 2 * k) as u32), ((base + 2 * k + 1) as u32)),
            ));
            assert(tree_written_at(base + 2 * e, *w, *blocks, desc, pairs@, 128));
        }
        Ok(desc)
    }

    /// Read the table back out of a tree: sizes from the key blocks,
    /// metadata block indices from the value blocks.
    pub fn read_block(i: u32, file: &[u8], blocks: &Blocks) -> (r: Result<Self, Error>)
        requires
            blocks.wf(),
        ensures
            match r {
                Ok(fs) => fs.wf(),
                Err(e) => e != Error::PathLoop,
            },
    {
        let (pairs, _block_len) = read_tree(i, file, blocks)?;
        let mut entries: Vec<(u32, u64)> = Vec::new();
        let mut k: usize = 0;
        while k < pairs.len()
            invariant
                k <= pairs@.len(),
                entries@.len() == k,
                k <= u32::MAX,
            decreases pairs@.len() - k,
        {
            if k >= u32::MAX as usize {
                return Err(Error::TooManyEntries);
            }
            let (kb, vb) = pairs[k];
            let kdata = blocks.slice(kb, file)?;
            let mut pos: usize = 0;
            let size = match read_u64(kdata, &mut pos) {
                Ok(v) => v,
                Err(e) => {
                    return Err(e);
                },
            };
            let vdata = blocks.slice(vb, file)?;
            let mut pos2: usize = 0;
            let block = match read_u32(vdata, &mut pos2) {
                Ok(v) => v,
                Err(e) => {
                    return Err(e);
                },
            };
            entries.push((block, size));
            k = k + 1;
        }
        Ok(FileSizes64 { entries })
    }
}

} // verus!
