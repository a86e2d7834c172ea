//! The receipt facade: the named blocks in their fixed order.

use vstd::prelude::*;

verus! {

use crate::blocks::Blocks;
use crate::bom::BOM_LEN;
use crate::bom::Bom;
use crate::error::Error;
use crate::io::ByteWriter;
use crate::named_blocks::NamedBlocks;
use crate::receipt::bom_info::BomInfo;
use crate::receipt::context::Context;
use crate::receipt::file_sizes::FileSizes64;
use crate::receipt::hard_links::HardLinks;
use crate::receipt::metadata::Metadata;
use crate::receipt::path_component::PathComponentVec;
use crate::receipt::path_component::sorted_by_seq;
use crate::receipt::virtual_paths::VirtualPathTree;
use crate::receipt::bom_info::BomInfoEntry;
use crate::receipt::bom_info::spec_accumulate;
use crate::receipt::metadata::ExecutableArch;
use crate::receipt::metadata::MetadataView;
use crate::receipt::path_component::PathComponent;
use crate::blocks::Block;
use crate::blocks::dec_blocks;
use crate::bom::bom_magic;
use crate::bom::enc_header;
use crate::io::pad_to;
use crate::io::write_at;
use crate::named_blocks::dec_named_entries;
use crate::named_blocks::dec_u32;
use crate::named_blocks::spec_find;
use crate::tree::lone_tree_count;

/// The store's decoded tables: the block list and the named entries,
/// when the header, the block table and the name table all decode.
pub open spec fn spec_store_tables(file: Seq<u8>) -> Option<
    (Seq<Block>, Seq<(Seq<u8>, u32)>),
> {
    if file.len() < 512 || file.subrange(0, 8) != bom_magic() || dec_u32(file.subrange(8, 12))
        != 1 {
        None
    } else {
        let btab = Block {
            offset: dec_u32(file.subrange(16, 20)),
            len: dec_u32(file.subrange(20, 24)),
        };
        let ntab = Block {
            offset: dec_u32(file.subrange(24, 28)),
            len: dec_u32(file.subrange(28, 32)),
        };
        if btab.end() > file.len() || ntab.end() > file.len() {
            None
        } else {
            let bdata = file.subrange(btab.offset as int, btab.end());
            let ndata = file.subrange(ntab.offset as int, ntab.end());
            match dec_blocks(bdata) {
                None => None,
                Some((list, _free)) => if ndata.len() < 4 {
                    None
                } else {
                    match dec_named_entries(ndata, 4, dec_u32(ndata.take(4)) as int) {
                        None => None,
                        Some((names, _end)) => Some((list, names)),
                    }
                },
            }
        }
    }
}

/// The entry count of the store's paths tree, when the store decodes,
/// a `Paths` name is present, and that tree's root is a single data
/// node.
pub open spec fn spec_paths_lone_count(file: Seq<u8>) -> Option<int> {
    match spec_store_tables(file) {
        None => None,
        Some((list, names)) => match spec_find(
            names,
            seq![80u8, 97u8, 116u8, 104u8, 115u8],
        ) {
            None => None,
            Some(pi) => lone_tree_count(file, list, pi),
        },
    }
}

/// The statistics after adding every architecture record, each one
/// bumping the path counter; `None` when an accumulator table would
/// outgrow its 32-bit counter.
pub open spec fn spec_stats_arches(
    st: (Seq<BomInfoEntry>, u32),
    arches: Seq<ExecutableArch>,
) -> Option<(Seq<BomInfoEntry>, u32)>
    decreases arches.len(),
{
    if arches.len() == 0 {
        Some(st)
    } else if st.0.len() >= u32::MAX {
        None
    } else {
        spec_stats_arches(
            (spec_accumulate(st.0, arches[0].cpu_type, arches[0].size), (st.1 + 1) as u32),
            arches.drop_first(),
        )
    }
}

/// The statistics after adding every component: executables add each
/// architecture slice, everything else its size under CPU type zero.
pub open spec fn spec_stats_components(
    st: (Seq<BomInfoEntry>, u32),
    comps: Seq<PathComponent>,
) -> Option<(Seq<BomInfoEntry>, u32)>
    decreases comps.len(),
{
    if comps.len() == 0 {
        Some(st)
    } else {
        let st2 = match comps[0].metadata@ {
            MetadataView::Executable { arches, .. } => spec_stats_arches(st, arches),
            _ => if st.0.len() >= u32::MAX {
                None
            } else {
                Some(
                    (
                        spec_accumulate(st.0, 0, comps[0].metadata@.size() as u32),
                        (st.1 + 1) as u32,
                    ),
                )
            },
        };
        match st2 {
            Some(s2) => spec_stats_components(s2, comps.drop_first()),
            None => None,
        }
    }
}

/// Configuration for creating a receipt.
pub struct ReceiptBuilder {
    paths_only: bool,
}

impl ReceiptBuilder {
    pub closed spec fn spec_paths_only(&self) -> bool {
        self.paths_only
    }

    /// Create a receipt builder with the default parameters.
    pub fn new() -> (r: Self)
        ensures
            !r.spec_paths_only(),
    {
        ReceiptBuilder { paths_only: false }
    }

    /// Do not include metadata in the receipt, only file paths.
    pub fn paths_only(self, value: bool) -> (r: Self)
        ensures
            r.spec_paths_only() == value,
    {
        ReceiptBuilder { paths_only: value }
    }

    /// Whether the receipt is to carry paths only.
    pub fn is_paths_only(&self) -> (r: bool)
        ensures
            r == self.spec_paths_only(),
    {
        self.paths_only
    }

    /// Assemble the receipt for an already gathered component vector.
    pub fn build(self, entries: PathComponentVec) -> (r: Receipt)
        ensures
            r.spec_entries() == entries,
    {
        Receipt { entries }
    }
}

/// A bill-of-materials document: the list of file paths and metadata
/// for an installed package.
#[derive(Debug)]
pub struct Receipt {
    entries: PathComponentVec,
}

impl Receipt {
    pub closed spec fn spec_entries(&self) -> PathComponentVec {
        self.entries
    }

    /// Wrap a component vector.
    pub fn new(entries: PathComponentVec) -> (r: Self)
        ensures
            r.spec_entries() == entries,
    {
        Receipt { entries }
    }

    /// The component vector itself.
    pub fn components(&self) -> (r: &PathComponentVec)
        ensures
            *r == self.spec_entries(),
    {
        &self.entries
    }

    /// Paths and the corresponding metadata, in the vector's order.
    ///
    /// On a vector a directory walk produced this always succeeds, each
    /// path is the slash-joined parent chain, and each record is the
    /// component's own.
    pub fn entries(&self) -> (r: Result<Vec<(Vec<u8>, Metadata)>, Error>)
        ensures
            crate::receipt::path_component::components_wf(
                self.spec_entries().components(),
            ) ==> r is Ok,
            match r {
                Ok(list) => list@.len() == self.spec_entries().components().len() && (
                crate::receipt::path_component::components_wf(self.spec_entries().components())
                    ==> forall|i: int|
                    0 <= i < list@.len() ==> (#[trigger] list@[i]).0@
                        == crate::receipt::path_component::spec_join(
                        crate::receipt::path_component::spec_path(
                            self.spec_entries().components(),
                            i + 1,
                        ),
                    ) && list@[i].1@ == self.spec_entries().components()[i].metadata@),
                Err(e) => e == Error::PathLoop,
            },
    {
        self.entries.to_paths()
    }

    /// Compute per-architecture file statistics: executables add every
    /// architecture slice, everything else adds its size under CPU type
    /// zero; all counters wrap at 32 bits.  The result is exactly the
    /// fold of the accumulators over the components, and the table-full
    /// error comes exactly when that fold overruns its 32-bit counter.
    pub fn stats(&self) -> (r: Result<BomInfo, Error>)
        ensures
            match r {
                Ok(b) => b.wf() && spec_stats_components(
                    (Seq::<BomInfoEntry>::empty(), 0u32),
                    self.spec_entries().components(),
                ) == Some((b.spec_entries(), b.spec_num_paths())),
                Err(e) => e == Error::TooManyEntries && spec_stats_components(
                    (Seq::<BomInfoEntry>::empty(), 0u32),
                    self.spec_entries().components(),
                ) is None,
            },
    {
        let ghost s = self.entries.components();
        let ghost target = spec_stats_components((Seq::<BomInfoEntry>::empty(), 0u32), s);
        let mut stats = BomInfo::new_empty();
        let mut i: usize = 0;
        proof {
            assert(s.skip(0) =~= s);
        }
        while i < self.entries.len()
            invariant
                i <= s.len(),
                s == self.entries.components(),
                target == spec_stats_components(
                    (Seq::<BomInfoEntry>::empty(), 0u32),
                    self.entries.components(),
                ),
                stats.wf(),
                target == spec_stats_components(
                    (stats.spec_entries(), stats.spec_num_paths()),
                    s.skip(i as int),
                ),
            decreases s.len() - i,
        {
            proof {
                assert(s.skip(i as int)[0] == s[i as int]);
                assert(s.skip(i as int).drop_first() =~= s.skip(i + 1));
            }
            let c = self.entries.component(i);
            match &c.metadata {
                Metadata::Executable(x) => {
                    let ghost arches = x.arches@;
                    let mut k: usize = 0;
                    proof {
                        assert(arches.skip(0) =~= arches);
                    }
                    while k < x.arches.len()
                        invariant
                            k <= arches.len(),
                            arches == x.arches@,
                            stats.wf(),
                            target == spec_stats_components(
                                (Seq::<BomInfoEntry>::empty(), 0u32),
                                self.entries.components(),
                            ),
                            s == self.entries.components(),
                            i < s.len(),
                            s[i as int].metadata@ matches MetadataView::Executable { arches: a, .. }
                                && a == arches,
                            target == (match spec_stats_arches(
                                (stats.spec_entries(), stats.spec_num_paths()),
                                arches.skip(k as int),
                            ) {
                                Some(s2) => spec_stats_components(s2, s.skip(i + 1)),
                                None => None::<(Seq<BomInfoEntry>, u32)>,
                            }),
                        decreases arches.len() - k,
                    {
                        proof {
                            assert(arches.skip(k as int)[0] == arches[k as int]);
                            assert(arches.skip(k as int).drop_first() =~= arches.skip(k + 1));
                        }
                        if stats.entries().len() >= u32::MAX as usize {
                            return Err(Error::TooManyEntries);
                        }
                        stats.accumulate(x.arches[k].cpu_type, x.arches[k].size);
                        k = k + 1;
                    }
                    proof {
                        assert(arches.skip(arches.len() as int)
                            =~= Seq::<ExecutableArch>::empty());
                    }
                },
                _ => {
                    if stats.entries().len() >= u32::MAX as usize {
                        return Err(Error::TooManyEntries);
                    }
                    #[verifier::truncate]
                    let size32 = c.metadata.size() as u32;
                    assert(size32 == s[i as int].metadata@.size() as u32);
                    stats.accumulate(0, size32);
                },
            }
            i = i + 1;
        }
        proof {
            assert(s.skip(s.len() as int) =~= Seq::<PathComponent>::empty());
        }
        Ok(stats)
    }

    /// Write the receipt: the named blocks in their fixed order, the
    /// side tables taken out of the context right before their turn,
    /// and the container header over the first 512 bytes.
    pub fn write(&self, w: &mut ByteWriter) -> (r: Result<(), Error>)
        requires
            old(w).wf(),
            old(w).bytes().len() == 0,
            self.spec_entries().wf(),
        ensures
            final(w).wf(),
            match r {
                Ok(()) => final(w).cursor() == 512 && exists|payload: Seq<u8>, b: Blocks, nb: NamedBlocks|
                    {
                        &&& payload.len() >= 512
                        &&& payload.len() + nb.enc().len() + b.enc().len() <= u32::MAX
                        &&& nb.entries().len() == 5
                        &&& nb.entries()[0].0 == seq![86u8, 73u8, 110u8, 100u8, 101u8, 120u8]
                        &&& nb.entries()[1].0 == seq![
                            72u8,
                            76u8,
                            73u8,
                            110u8,
                            100u8,
                            101u8,
                            120u8,
                        ]
                        &&& nb.entries()[2].0 == seq![80u8, 97u8, 116u8, 104u8, 115u8]
                        &&& nb.entries()[3].0 == seq![83u8, 105u8, 122u8, 101u8, 54u8, 52u8]
                        &&& nb.entries()[4].0 == seq![66u8, 111u8, 109u8, 73u8, 110u8, 102u8, 111u8]
                        &&& final(w).bytes() == write_at(
                            #[trigger] (payload + nb.enc() + b.enc()),
                            0,
                            enc_header(
                                b.list().filter(|x: Block| !x.spec_is_null()).len() as u32,
                                Block {
                                    offset: (payload.len() + nb.enc().len()) as u32,
                                    len: b.enc().len() as u32,
                                },
                                Block { offset: payload.len() as u32, len: nb.enc().len() as u32 },
                            ),
                        )
                    },
                Err(e) => {
                    &&& (e == Error::InvalidData ==> exists|j: int|
                        0 <= j < self.spec_entries().components().len() && !(#[trigger] self.spec_entries().components()[j]).metadata@.wf())
                    &&& (e == Error::TooManyEntries ==> spec_stats_components(
                        (Seq::<BomInfoEntry>::empty(), 0u32),
                        self.spec_entries().components(),
                    ) is None || self.spec_entries().components().len() >= u32::MAX)
                    &&& (e == Error::FileTooLarge ==> final(w).bytes().len() > u32::MAX || 18
                        * self.spec_entries().components().len() + 16408 > u32::MAX)
                    &&& (e == Error::InvalidData || e == Error::TooManyEntries || e
                        == Error::FileTooLarge)
                },
            },
    {
        let ghost comps = self.entries.components();
        w.seek(BOM_LEN);
        assert(w.bytes().len() == 512);
        let mut blocks = Blocks::new();
        let mut named = NamedBlocks::new();
        let mut ctx = Context::new();

        let vindex = VirtualPathTree::new();
        let i = match vindex.write_block(w, &mut blocks) {
            Ok(x) => x,
            Err(e) => {
                proof {
                    assert(blocks.list().len() <= 5);
                }
                return Err(e);
            },
        };
        proof {
            crate::named_blocks::NamedBlocks::lemma_find_at_none(
                named.entries(),
                seq![86u8, 73u8, 110u8, 100u8, 101u8, 120u8],
            );
        }
        named.insert(name_v_index(), i);

        let i = match ctx.hard_links.write_block(w, &mut blocks) {
            Ok(x) => x,
            Err(e) => {
                proof {
                    assert(blocks.list().len() <= 8);
                }
                return Err(e);
            },
        };
        proof {
            let hl = seq![72u8, 76u8, 73u8, 110u8, 100u8, 101u8, 120u8];
            assert forall|j: int| 0 <= j < named.entries().len() implies (#[trigger] named.entries()[j]).0
                != hl by {
                assert(named.entries()[j].0.len() == 6);
            }
            crate::named_blocks::NamedBlocks::lemma_find_at_none(named.entries(), hl);
        }
        named.insert(name_hl_index(), i);
        ctx.hard_links = HardLinks::new();

        let i = match self.entries.write_block(w, &mut blocks, &mut ctx) {
            Ok(x) => x,
            Err(e) => {
                proof {
                    assert(blocks.list().len() <= 8 + 5 * comps.len() + 6);
                }
                return Err(e);
            },
        };
        proof {
            let pn = seq![80u8, 97u8, 116u8, 104u8, 115u8];
            assert forall|j: int| 0 <= j < named.entries().len() implies (#[trigger] named.entries()[j]).0
                != pn by {
                assert(named.entries()[j].0.len() == 6 || named.entries()[j].0.len() == 7);
            }
            crate::named_blocks::NamedBlocks::lemma_find_at_none(named.entries(), pn);
        }
        named.insert(name_paths(), i);

        let i = match ctx.file_sizes.write_block(w, &mut blocks) {
            Ok(x) => x,
            Err(e) => {
                proof {
                    assert(ctx.file_sizes.entries().len() <= comps.len());
                    assert(blocks.list().len() <= 5 * comps.len() + 14 + 4 * comps.len() + 4);
                }
                return Err(e);
            },
        };
        proof {
            let sn = seq![83u8, 105u8, 122u8, 101u8, 54u8, 52u8];
            assert forall|j: int| 0 <= j < named.entries().len() implies (#[trigger] named.entries()[j]).0
                != sn by {
                if j == 0 {
                    assert(named.entries()[0].0[0] == 86u8);
                    assert(sn[0] == 83u8);
                } else {
                    assert(named.entries()[j].0.len() == 7 || named.entries()[j].0.len() == 5);
                }
            }
            crate::named_blocks::NamedBlocks::lemma_find_at_none(named.entries(), sn);
        }
        named.insert(name_size_64(), i);
        ctx.file_sizes = FileSizes64::new();

        let stats = match self.stats() {
            Ok(s) => s,
            Err(e) => {
                return Err(e);
            },
        };
        let start = w.position();
        stats.write_be(w);
        let i = match blocks.append(start, w.position()) {
            Ok(x) => x,
            Err(e) => {
                proof {
                    assert(blocks.list().len() <= 9 * comps.len() + 19);
                }
                return Err(e);
            },
        };
        proof {
            let bn = seq![66u8, 111u8, 109u8, 73u8, 110u8, 102u8, 111u8];
            assert forall|j: int| 0 <= j < named.entries().len() implies (#[trigger] named.entries()[j]).0
                != bn by {
                if j == 1 {
                    assert(named.entries()[1].0[0] == 72u8);
                    assert(bn[0] == 66u8);
                } else {
                    assert(named.entries()[j].0.len() == 6 || named.entries()[j].0.len() == 5);
                }
            }
            crate::named_blocks::NamedBlocks::lemma_find_at_none(named.entries(), bn);
        }
        named.insert(name_bom_info(), i);

        let ghost payload = w.bytes();
        let bom = Bom::from_parts(blocks, named);
        let res = bom.write(w);
        match res {
            Ok(()) => {
                proof {
                    assert(payload.len() >= 512);
                    assert(pad_to(payload, 512) == payload);
                    assert(named.entries().len() == 5);
                    assert(named.entries()[0].0 == seq![86u8, 73u8, 110u8, 100u8, 101u8, 120u8]);
                    assert(named.entries()[1].0 == seq![
                        72u8,
                        76u8,
                        73u8,
                        110u8,
                        100u8,
                        101u8,
                        120u8,
                    ]);
                    assert(named.entries()[2].0 == seq![80u8, 97u8, 116u8, 104u8, 115u8]);
                    assert(named.entries()[3].0 == seq![83u8, 105u8, 122u8, 101u8, 54u8, 52u8]);
                    assert(named.entries()[4].0 == seq![
                        66u8,
                        111u8,
                        109u8,
                        73u8,
                        110u8,
                        102u8,
                        111u8,
                    ]);
                }
                Ok(())
            },
            Err(e) => {
                proof {
                    if e == Error::InvalidData {
                        assert(forall|j: int|
                            0 <= j < named.entries().len() ==> (#[trigger] named.entries()[j]).0.len()
                                <= 7);
                        assert(false);
                    }
                }
                Err(e)
            },
        }
    }

    /// Read a receipt out of a whole file's bytes.
    ///
    /// The size and hard-link tables are read before the paths so that
    /// metadata records can recover their 64-bit sizes.
    pub fn read(file: &[u8]) -> (r: Result<Self, Error>)
        ensures
            match r {
                Ok(receipt) => receipt.spec_entries().wf() && sorted_by_seq(
                    receipt.spec_entries().components(),
                ) && (spec_paths_lone_count(file@) is Some
                    ==> receipt.spec_entries().components().len() == spec_paths_lone_count(
                    file@,
                ).unwrap()),
                Err(e) => e != Error::PathLoop,
            },
    {
        let bom = Bom::read(file)?;
        let (blocks, named) = bom.into_parts();
        proof {
            assert(spec_store_tables(file@) == Some((blocks.list(), named.entries())));
        }
        let mut ctx = Context::new();
        let size64 = name_size_64();
        match named.get(size64.as_slice()) {
            Some(i) => {
                ctx.file_sizes = FileSizes64::read_block(i, file, &blocks)?;
            },
            None => {},
        }
        let hlindex = name_hl_index();
        match named.get(hlindex.as_slice()) {
            Some(i) => {
                ctx.hard_links = HardLinks::read_block(i, file, &blocks)?;
            },
            None => {},
        }
        let paths = name_paths();
        let i = match named.get(paths.as_slice()) {
            Some(i) => i,
            None => {
                return Err(Error::InvalidData);
            },
        };
        proof {
            assert(spec_find(named.entries(), seq![80u8, 97u8, 116u8, 104u8, 115u8]) == Some(i));
        }
        let entries = PathComponentVec::read_block(i, file, &blocks, &ctx)?;
        Ok(Receipt { entries })
    }
}

/// The name of the virtual-path block: `VIndex`.
pub fn name_v_index() -> (r: Vec<u8>)
    ensures
        r@ == seq![86u8, 73u8, 110u8, 100u8, 101u8, 120u8],
{
    let r = vec![86u8, 73u8, 110u8, 100u8, 101u8, 120u8];
    assert(r@ =~= seq![86u8, 73u8, 110u8, 100u8, 101u8, 120u8]);
    r
}

/// The name of the hard-link block: `HLIndex`.
pub fn name_hl_index() -> (r: Vec<u8>)
    ensures
        r@ == seq![72u8, 76u8, 73u8, 110u8, 100u8, 101u8, 120u8],
{
    let r = vec![72u8, 76u8, 73u8, 110u8, 100u8, 101u8, 120u8];
    assert(r@ =~= seq![72u8, 76u8, 73u8, 110u8, 100u8, 101u8, 120u8]);
    r
}

/// The name of the path tree block: `Paths`.
pub fn name_paths() -> (r: Vec<u8>)
    ensures
        r@ == seq![80u8, 97u8, 116u8, 104u8, 115u8],
{
    let r = vec![80u8, 97u8, 116u8, 104u8, 115u8];
    assert(r@ =~= seq![80u8, 97u8, 116u8, 104u8, 115u8]);
    r
}

/// The name of the 64-bit size block: `Size64`.
pub fn name_size_64() -> (r: Vec<u8>)
    ensures
        r@ == seq![83u8, 105u8, 122u8, 101u8, 54u8, 52u8],
{
    let r = vec![83u8, 105u8, 122u8, 101u8, 54u8, 52u8];
    assert(r@ =~= seq![83u8, 105u8, 122u8, 101u8, 54u8, 52u8]);
    r
}

/// The name of the statistics block: `BomInfo`.
pub fn name_bom_info() -> (r: Vec<u8>)
    ensures
        r@ == seq![66u8, 111u8, 109u8, 73u8, 110u8, 102u8, 111u8],
{
    let r = vec![66u8, 111u8, 109u8, 73u8, 110u8, 102u8, 111u8];
    assert(r@ =~= seq![66u8, 111u8, 109u8, 73u8, 110u8, 102u8, 111u8]);
    r
}

} // verus!
