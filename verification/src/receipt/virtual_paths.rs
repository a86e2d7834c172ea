//! The virtual-path tree: required to exist, normally empty.

use vstd::prelude::*;

verus! {

use crate::blocks::Blocks;
use crate::error::Error;
use crate::io::ByteWriter;
use crate::io::read_u32;
use crate::io::read_u8;
use crate::tree::read_tree;
use crate::tree::write_tree;
use crate::receipt::ptr::read_ptr_block;
use crate::receipt::ptr::write_ptr_block;

/// Pattern-to-name entries; each pattern set is an optional inner tree
/// of names.
#[derive(Debug)]
pub struct VirtualPathTree {
    entries: Vec<(Option<Vec<Vec<u8>>>, Vec<u8>)>,
}

impl VirtualPathTree {
    /// The entries: an optional pattern list and a name each.
    pub closed spec fn entries(&self) -> Seq<(Option<Seq<Seq<u8>>>, Seq<u8>)> {
        self.entries@.map_values(
            |p: (Option<Vec<Vec<u8>>>, Vec<u8>)|
                (
                    match p.0 {
                        Some(ns) => Some(ns@.map_values(|n: Vec<u8>| n@)),
                        None => None,
                    },
                    p.1@,
                ),
        )
    }

    pub open spec fn spec_len(&self) -> int {
        self.entries().len() as int
    }

    pub open spec fn wf(&self) -> bool {
        self.spec_len() <= u32::MAX
    }

    /// Create an empty tree.
    pub fn new() -> (r: Self)
        ensures
            r.spec_len() == 0,
            r.wf(),
    {
        VirtualPathTree { entries: Vec::new() }
    }

    pub fn len(&self) -> (r: usize)
        ensures
            r == self.spec_len(),
    {
        self.entries.len()
    }

    /// Write the tree and its version header block; empty contents give
    /// an empty tree behind the header.
    pub fn write_block(&self, w: &mut ByteWriter, blocks: &mut Blocks) -> (r: Result<u32, Error>)
        requires
            old(w).wf(),
            old(w).cursor() == old(w).bytes().len(),
            old(blocks).wf(),
            old(blocks).list().len() >= 1,
            self.wf(),
        ensures
            final(w).wf(),
            final(w).cursor() == final(w).bytes().len(),
            old(w).bytes().len() <= final(w).bytes().len(),
            final(blocks).wf(),
            final(blocks).free_list() == old(blocks).free_list(),
            self.spec_len() == 0 ==> final(blocks).list().len() <= old(blocks).list().len() + 4,
            match r {
                Ok(i) => final(blocks).list().len() > old(blocks).list().len() && i == final(
                    blocks
                ).list().len() - 1,
                Err(e) => (e == Error::FileTooLarge && (final(w).bytes().len() > u32::MAX || 2
                    * final(blocks).list().len() + 8192 > u32::MAX)) || (e
                    == Error::TooManyEntries && exists|j: int|
                    0 <= j < self.entries().len() && ((#[trigger] self.entries()[j]).0 matches Some(
                        ns,
                    ) && ns.len() >= u32::MAX)),
            },
    {
        let mut outer: Vec<(u32, u32)> = Vec::new();
        let mut i: usize = 0;
        while i < self.entries.len()
            invariant
                i <= self.entries@.len(),
                self.entries@.len() <= u32::MAX,
                outer@.len() == i,
                w.wf(),
                w.cursor() == w.bytes().len(),
                old(w).bytes().len() <= w.bytes().len(),
                blocks.wf(),
                blocks.free_list() == old(blocks).free_list(),
                blocks.list().len() >= old(blocks).list().len(),
                blocks.list().len() >= 1,
                self.entries@.len() == 0 ==> blocks.list().len() == old(blocks).list().len(),
            decreases self.entries@.len() - i,
        {
            let target = match &self.entries[i].0 {
                Some(names) => {
                    let mut inner: Vec<(u32, u32)> = Vec::new();
                    let mut k: usize = 0;
                    while k < names.len()
                        invariant
                            k <= names@.len(),
                            inner@.len() == k,
                            k <= u32::MAX,
                            w.wf(),
                            w.cursor() == w.bytes().len(),
                            old(w).bytes().len() <= w.bytes().len(),
                            blocks.wf(),
                            blocks.free_list() == old(blocks).free_list(),
                            blocks.list().len() >= old(blocks).list().len(),
                            blocks.list().len() >= 1,
                            i < self.entries@.len(),
                            (self.entries@[i as int].0 matches Some(nn) && nn == *names),
                        decreases names@.len() - k,
                    {
                        if k >= u32::MAX as usize {
                            proof {
                                assert(self.entries()[i as int].0 matches Some(ns) && ns.len()
                                    >= u32::MAX);
                            }
                            return Err(Error::TooManyEntries);
                        }
                        let kpos = w.position();
                        let key = match blocks.append(kpos, kpos) {
                            Ok(x) => x,
                            Err(e) => {
                                return Err(e);
                            },
                        };
                        let vpos = w.position();
                        w.write_bytes(names[k].as_slice());
                        w.write_u8(0);
                        let value = match blocks.append(vpos, w.position()) {
                            Ok(x) => x,
                            Err(e) => {
                                return Err(e);
                            },
                        };
                        inner.push((key, value));
                        k = k + 1;
                    }
                    match write_tree(&inner, 128, w, blocks) {
                        Ok(x) => x,
                        Err(e) => {
                            return Err(e);
                        },
                    }
                },
                None => match blocks.append_null(w.position()) {
                    Ok(x) => x,
                    Err(e) => {
                        return Err(e);
                    },
                },
            };
            let key = match write_ptr_block(target, w, blocks) {
                Ok(x) => x,
                Err(e) => {
                    return Err(e);
                },
            };
            let vpos = w.position();
            w.write_bytes(self.entries[i].1.as_slice());
            w.write_u8(0);
            let value = match blocks.append(vpos, w.position()) {
                Ok(x) => x,
                Err(e) => {
                    return Err(e);
                },
            };
            outer.push((key, value));
            i = i + 1;
        }
        let tree_index = match write_tree(&outer, 4096, w, blocks) {
            Ok(x) => x,
            Err(e) => {
                return Err(e);
            },
        };
        let start = w.position();
        w.write_u32(1);
        w.write_u32(tree_index);
        w.write_u32(0);
        w.write_u8(1);
        blocks.append(start, w.position())
    }

    /// Read the version header block and the tree behind it, keeping
    /// only the entry count; the store accepts any shape here.
    pub fn read_block(i: u32, file: &[u8], blocks: &Blocks) -> (r: Result<Self, Error>)
        requires
            blocks.wf(),
        ensures
            match r {
                Ok(v) => v.wf(),
                Err(e) => e != Error::PathLoop,
            },
    {
        let data = blocks.slice(i, file)?;
        let mut pos: usize = 0;
        let version = match read_u32(data, &mut pos) {
            Ok(v) => v,
            Err(e) => {
                return Err(e);
            },
        };
        if version != 1 {
            return Err(Error::UnsupportedVersion);
        }
        let tree_index = match read_u32(data, &mut pos) {
            Ok(v) => v,
            Err(e) => {
                return Err(e);
            },
        };
        let _x0 = match read_u32(data, &mut pos) {
            Ok(v) => v,
            Err(e) => {
                return Err(e);
            },
        };
        let _x1 = match read_u8(data, &mut pos) {
            Ok(v) => v,
            Err(e) => {
                return Err(e);
            },
        };
        let (outer, _block_len) = read_tree(tree_index, file, blocks)?;
        let mut entries: Vec<(Option<Vec<Vec<u8>>>, Vec<u8>)> = Vec::new();
        let mut k: usize = 0;
        while k < outer.len()
            invariant
                k <= outer@.len(),
                entries@.len() == k,
                k <= u32::MAX,
                blocks.wf(),
            decreases outer@.len() - k,
        {
            if k >= u32::MAX as usize {
                return Err(Error::TooManyEntries);
            }
            let (kb, vb) = outer[k];
            let target = read_ptr_block(kb, file, blocks)?;
            let tdata = blocks.slice(target, file)?;
            let patterns = if tdata.len() == 0 {
                None
            } else {
                let (inner, _) = read_tree(target, file, blocks)?;
                let mut names: Vec<Vec<u8>> = Vec::new();
                let mut t: usize = 0;
                while t < inner.len()
                    invariant
                        t <= inner@.len(),
                        blocks.wf(),
                    decreases inner@.len() - t,
                {
                    let ndata = blocks.slice(inner[t].1, file)?;
                    let mut name: Vec<u8> = Vec::new();
                    let mut p: usize = 0;
                    while p < ndata.len()
                        invariant
                            p <= ndata@.len(),
                        decreases ndata@.len() - p,
                    {
                        name.push(ndata[p]);
                        p = p + 1;
                    }
                    if name.len() > 0 {
                        let _ = name.pop();
                    }
                    names.push(name);
                    t = t + 1;
                }
                Some(names)
            };
            let vdata = blocks.slice(vb, file)?;
            let mut name: Vec<u8> = Vec::new();
            let mut p: usize = 0;
            while p < vdata.len()
                invariant
                    p <= vdata@.len(),
                decreases vdata@.len() - p,
            {
                name.push(vdata[p]);
                p = p + 1;
            }
            if name.len() > 0 {
                let _ = name.pop();
            }
            entries.push((patterns, name));
            k = k + 1;
        }
        Ok(VirtualPathTree { entries })
    }
}

} // verus!
