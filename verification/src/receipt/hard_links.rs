//! The hard-link table: a metadata block index to the names that share it.

use vstd::prelude::*;

verus! {

use crate::blocks::Blocks;
use crate::error::Error;
use crate::io::ByteWriter;
use crate::tree::lone_tree_count;
use crate::tree::read_tree;
use crate::tree::write_tree;
use crate::receipt::ptr::read_ptr_block;
use crate::receipt::ptr::write_ptr_block;

/// The index of the first entry for a block, if any.
pub open spec fn spec_links_index(s: Seq<(u32, Seq<Seq<u8>>)>, block: u32) -> Option<int>
    decreases s.len(),
{
    if s.len() == 0 {
        None
    } else if s[0].0 == block {
        Some(0)
    } else {
        match spec_links_index(s.drop_first(), block) {
            Some(i) => Some(i + 1),
            None => None,
        }
    }
}

/// A found entry's index is in range.
pub proof fn lemma_links_index_range(s: Seq<(u32, Seq<Seq<u8>>)>, block: u32)
    ensures
        spec_links_index(s, block) matches Some(j) ==> 0 <= j < s.len(),
    decreases s.len(),
{
    if s.len() > 0 {
        lemma_links_index_range(s.drop_first(), block);
    }
}

/// A block none of the entries names is not in the table.
pub proof fn lemma_links_index_none(s: Seq<(u32, Seq<Seq<u8>>)>, block: u32)
    requires
        forall|j: int| 0 <= j < s.len() ==> (#[trigger] s[j]).0 != block,
    ensures
        spec_links_index(s, block) is None,
    decreases s.len(),
{
    if s.len() > 0 {
        lemma_links_index_none(s.drop_first(), block);
    }
}

/// Metadata block index to the list of names stored against it.
#[derive(Debug)]
pub struct HardLinks {
    entries: Vec<(u32, Vec<Vec<u8>>)>,
}

impl HardLinks {
    pub closed spec fn entries(&self) -> Seq<(u32, Seq<Seq<u8>>)> {
        self.entries@.map_values(
            |p: (u32, Vec<Vec<u8>>)| (p.0, p.1@.map_values(|n: Vec<u8>| n@)),
        )
    }

    pub open spec fn wf(&self) -> bool {
        self.entries().len() <= u32::MAX
    }

    pub fn new() -> (r: Self)
        ensures
            r.entries() == Seq::<(u32, Seq<Seq<u8>>)>::empty(),
            r.wf(),
    {
        let r = HardLinks { entries: Vec::new() };
        assert(r.entries() =~= Seq::<(u32, Seq<Seq<u8>>)>::empty());
        r
    }

    pub fn len(&self) -> (r: usize)
        ensures
            r == self.entries().len(),
    {
        self.entries.len()
    }

    pub fn is_empty(&self) -> (r: bool)
        ensures
            r == (self.entries().len() == 0),
    {
        self.entries.len() == 0
    }

    /// Record `name` against `block`: appended to the block's name list,
    /// or opening a new list when the block has none yet.
    pub fn add(&mut self, block: u32, name: Vec<u8>)
        requires
            old(self).wf(),
            old(self).entries().len() < u32::MAX,
        ensures
            final(self).wf(),
            match spec_links_index(old(self).entries(), block) {
                Some(j) => final(self).entries() == old(self).entries().update(
                    j,
                    (block, old(self).entries()[j].1.push(name@)),
                ),
                None => final(self).entries() == old(self).entries().push(
                    (block, seq![name@]),
                ),
            },
    {
        let ghost orig = self.entries();
        let mut i: usize = 0;
        assert(orig.skip(0) =~= orig);
        while i < self.entries.len()
            invariant
                i <= self.entries().len(),
                self.entries() == orig,
                orig == old(self).entries(),
                orig.len() < u32::MAX,
                match spec_links_index(orig.skip(i as int), block) {
                    Some(j) => spec_links_index(orig, block) == Some(j + i),
                    None => spec_links_index(orig, block) == None::<int>,
                },
            decreases self.entries().len() - i,
        {
            proof {
                assert(orig.skip(i as int)[0] == orig[i as int]);
                assert(orig.skip(i as int).drop_first() =~= orig.skip(i + 1));
            }
            if self.entries[i].0 == block {
                proof {
                    assert(spec_links_index(orig.skip(i as int), block) == Some(0int));
                    assert(spec_links_index(orig, block) == Some(i as int));
                }
                let entry = &mut self.entries[i];
                entry.1.push(name);
                proof {
                    assert(self.entries() =~~= orig.update(
                        i as int,
                        (block, orig[i as int].1.push(name@)),
                    ));
                }
                return ;
            }
            i = i + 1;
        }
        assert(orig.skip(orig.len() as int) =~= Seq::<(u32, Seq<Seq<u8>>)>::empty());
        self.entries.push((block, vec![name]));
        proof {
            assert(self.entries() =~~= orig.push((block, seq![name@])));
        }
    }

    /// Hand the pairs back.
    pub fn into_inner(self) -> (r: Vec<(u32, Vec<Vec<u8>>)>)
        ensures
            r@.map_values(|p: (u32, Vec<Vec<u8>>)| (p.0, p.1@.map_values(|n: Vec<u8>| n@)))
                == self.entries(),
    {
        self.entries
    }

    /// Write the table: per block an inner tree that lists its names,
    /// stored behind a pointer block, all gathered in an outer tree
    /// whose values carry the metadata block indices.
    pub fn write_block(&self, w: &mut ByteWriter, blocks: &mut Blocks) -> (r: Result<u32, Error>)
        requires
            old(w).wf(),
            old(w).cursor() == old(w).bytes().len(),
            old(blocks).wf(),
            old(blocks).list().len() >= 1,
            self.wf(),
        ensures
            final(w).wf(),
            final(w).cursor() == final(w).bytes().len(),
            old(w).bytes().len() <= final(w).bytes().len(),
            final(blocks).wf(),
            final(blocks).free_list() == old(blocks).free_list(),
            self.entries().len() == 0 ==> final(blocks).list().len() <= old(blocks).list().len()
                + 3,
            match r {
                Ok(i) => final(blocks).list().len() > old(blocks).list().len() && i == final(
                    blocks
                ).list().len() - 1,
                Err(e) => (e == Error::FileTooLarge && (final(w).bytes().len() > u32::MAX || 2
                    * final(blocks).list().len() + 8192 > u32::MAX)) || (e
                    == Error::TooManyEntries && exists|j: int|
                    0 <= j < self.entries().len() && (#[trigger] self.entries()[j]).1.len()
                        >= u32::MAX),
            },
    {
        let mut outer: Vec<(u32, u32)> = Vec::new();
        let mut i: usize = 0;
        while i < self.entries.len()
            invariant
                i <= self.entries@.len(),
                self.entries@.len() <= u32::MAX,
                outer@.len() == i,
                w.wf(),
                w.cursor() == w.bytes().len(),
                old(w).bytes().len() <= w.bytes().len(),
                blocks.wf(),
                blocks.free_list() == old(blocks).free_list(),
                blocks.list().len() >= old(blocks).list().len(),
                blocks.list().len() >= 1,
                self.entries@.len() == 0 ==> blocks.list().len() == old(blocks).list().len(),
            decreases self.entries@.len() - i,
        {
            let names = &self.entries[i].1;
            let mut inner: Vec<(u32, u32)> = Vec::new();
            let mut k: usize = 0;
            while k < names.len()
                invariant
                    k <= names@.len(),
                    inner@.len() == k,
                    k <= u32::MAX,
                    w.wf(),
                    w.cursor() == w.bytes().len(),
                    old(w).bytes().len() <= w.bytes().len(),
                    blocks.wf(),
                    blocks.free_list() == old(blocks).free_list(),
                    blocks.list().len() >= old(blocks).list().len(),
                    blocks.list().len() >= 1,
                    i < self.entries@.len(),
                    names == &self.entries@[i as int].1,
                decreases names@.len() - k,
            {
                if k >= u32::MAX as usize {
                    proof {
                        assert(self.entries()[i as int].1.len() >= u32::MAX);
                    }
                    return Err(Error::TooManyEntries);
                }
                // the key of an inner entry is an empty block
                let kpos = w.position();
                let key = match blocks.append(kpos, kpos) {
                    Ok(x) => x,
                    Err(e) => {
                        return Err(e);
                    },
                };
                let vpos = w.position();
                w.write_bytes(names[k].as_slice());
                w.write_u8(0);
                let value = match blocks.append(vpos, w.position()) {
                    Ok(x) => x,
                    Err(e) => {
                        return Err(e);
                    },
                };
                inner.push((key, value));
                k = k + 1;
            }
            let inner_tree = match write_tree(&inner, 128, w, blocks) {
                Ok(x) => x,
                Err(e) => {
                    return Err(e);
                },
            };
            let key = match write_ptr_block(inner_tree, w, blocks) {
                Ok(x) => x,
                Err(e) => {
                    return Err(e);
                },
            };
            let vpos = w.position();
            w.write_u32(self.entries[i].0);
            let value = match blocks.append(vpos, w.position()) {
                Ok(x) => x,
                Err(e) => {
                    return Err(e);
                },
            };
            outer.push((key, value));
            i = i + 1;
        }
        write_tree(&outer, 4096, w, blocks)
    }

    /// Read the table back: outer entries name a pointer to an inner
    /// name tree and a block holding the metadata block index.
    pub fn read_block(i: u32, file: &[u8], blocks: &Blocks) -> (r: Result<Self, Error>)
        requires
            blocks.wf(),
        ensures
            lone_tree_count(file@, blocks.list(), i) is Some ==> (match r {
                Ok(h) => h.entries().len() == lone_tree_count(file@, blocks.list(), i).unwrap(),
                Err(_) => true,
            }),
            match r {
                Ok(h) => h.wf(),
                Err(e) => e != Error::PathLoop,
            },
    {
        let (outer, _block_len) = read_tree(i, file, blocks)?;
        let mut entries: Vec<(u32, Vec<Vec<u8>>)> = Vec::new();
        let mut k: usize = 0;
        while k < outer.len()
            invariant
                k <= outer@.len(),
                entries@.len() == k,
                k <= u32::MAX,
                blocks.wf(),
                lone_tree_count(file@, blocks.list(), i) matches Some(c) ==> outer@.len() == c,
            decreases outer@.len() - k,
        {
            if k >= u32::MAX as usize {
                return Err(Error::TooManyEntries);
            }
            let (kb, vb) = outer[k];
            let inner_tree = read_ptr_block(kb, file, blocks)?;
            let (inner, _) = read_tree(inner_tree, file, blocks)?;
            let mut names: Vec<Vec<u8>> = Vec::new();
            let mut t: usize = 0;
            while t < inner.len()
                invariant
                    t <= inner@.len(),
                    blocks.wf(),
                decreases inner@.len() - t,
            {
                let ndata = blocks.slice(inner[t].1, file)?;
                let mut name: Vec<u8> = Vec::new();
                let mut p: usize = 0;
                while p < ndata.len()
                    invariant
                        p <= ndata@.len(),
                    decreases ndata@.len() - p,
                {
                    name.push(ndata[p]);
                    p = p + 1;
                }
                // strip the stored NUL
                if name.len() > 0 {
                    let _ = name.pop();
                }
                names.push(name);
                t = t + 1;
            }
            let vdata = blocks.slice(vb, file)?;
            let mut pos: usize = 0;
            let block = match crate::io::read_u32(vdata, &mut pos) {
                Ok(v) => v,
                Err(e) => {
                    return Err(e);
                },
            };
            entries.push((block, names));
            k = k + 1;
        }
        Ok(HardLinks { entries })
    }
}

} // verus!
