//! The container: a fixed 512-byte header pointing at the two tables.

use vstd::prelude::*;

verus! {

use crate::blocks::Block;
use crate::blocks::Blocks;
use crate::blocks::dec_blocks;
use crate::error::Error;
use crate::io::ByteWriter;
use crate::io::enc_u32;
use crate::io::pad_to;
use crate::io::write_at;
use crate::io::zeros;
use crate::io::read_u32;
use crate::named_blocks::NamedBlocks;
use crate::named_blocks::bytes_eq;
use crate::named_blocks::dec_named_entries;
use crate::named_blocks::dec_u32;
use crate::named_blocks::lemma_dec_enc_u32;
use crate::named_blocks::spec_find;

/// Total header length, padding included.
pub const BOM_LEN: usize = 512;

/// The ASCII bytes `BOMStore`.
pub open spec fn bom_magic() -> Seq<u8> {
    seq![66u8, 79u8, 77u8, 83u8, 116u8, 111u8, 114u8, 101u8]
}

/// The 512-byte header: magic, version 1, non-null block count, the
/// block-index table's range, the named-block table's range, zero padding.
pub open spec fn enc_header(num_non_null: u32, blocks_tab: Block, named_tab: Block) -> Seq<u8> {
    bom_magic() + enc_u32(1) + enc_u32(num_non_null) + blocks_tab.enc() + named_tab.enc() + zeros(
        480,
    )
}

/// BOM file low-level representation: regular and named blocks.
#[derive(Debug)]
pub struct Bom {
    blocks: Blocks,
    named_blocks: NamedBlocks,
}

impl Bom {
    pub closed spec fn spec_blocks(&self) -> Blocks {
        self.blocks
    }

    pub closed spec fn spec_named_blocks(&self) -> NamedBlocks {
        self.named_blocks
    }

    pub open spec fn wf(&self) -> bool {
        self.spec_blocks().wf() && self.spec_named_blocks().wf()
    }

    /// Create a new empty BOM.
    pub fn new() -> (r: Self)
        ensures
            r.spec_blocks().list() == seq![Block { offset: 0u32, len: 0u32 }],
            r.spec_blocks().free_list() == seq![
                Block { offset: 0u32, len: 0u32 },
                Block { offset: 0u32, len: 0u32 },
            ],
            r.spec_named_blocks().entries() == Seq::<(Seq<u8>, u32)>::empty(),
            r.wf(),
    {
        Bom { blocks: Blocks::new(), named_blocks: NamedBlocks::new() }
    }

    /// All regular blocks.
    pub fn blocks(&self) -> (r: &Blocks)
        ensures
            *r == self.spec_blocks(),
    {
        &self.blocks
    }

    /// Assemble a container from a block store and a name table.
    pub fn from_parts(blocks: Blocks, named_blocks: NamedBlocks) -> (r: Self)
        ensures
            r.spec_blocks() == blocks,
            r.spec_named_blocks() == named_blocks,
    {
        Bom { blocks, named_blocks }
    }

    /// Take the container apart.
    pub fn into_parts(self) -> (r: (Blocks, NamedBlocks))
        ensures
            r.0 == self.spec_blocks(),
            r.1 == self.spec_named_blocks(),
    {
        (self.blocks, self.named_blocks)
    }

    /// All named blocks.
    pub fn named_blocks(&self) -> (r: &NamedBlocks)
        ensures
            *r == self.spec_named_blocks(),
    {
        &self.named_blocks
    }

    /// Record `block` under `name`: a fresh name goes to the end, a
    /// name already present has its index replaced.
    pub fn insert_named(&mut self, name: Vec<u8>, block: u32)
        requires
            old(self).wf(),
            old(self).spec_named_blocks().entries().len() < u32::MAX,
        ensures
            final(self).spec_blocks() == old(self).spec_blocks(),
            final(self).wf(),
            match crate::named_blocks::spec_find_at(
                old(self).spec_named_blocks().entries(),
                name@,
            ) {
                Some(i) => final(self).spec_named_blocks().entries() == old(
                    self,
                ).spec_named_blocks().entries().update(i, (name@, block)),
                None => final(self).spec_named_blocks().entries() == old(
                    self,
                ).spec_named_blocks().entries().push((name@, block)),
            },
    {
        self.named_blocks.insert(name, block);
    }

    /// Get a block index by name.
    pub fn get_named(&self, name: &[u8]) -> (r: Option<u32>)
        ensures
            r == spec_find(self.spec_named_blocks().entries(), name@),
    {
        self.named_blocks.get(name)
    }

    /// Read the BOM header and both tables out of `file`.
    #[verifier::rlimit(50)]
    pub fn read(file: &[u8]) -> (r: Result<Self, Error>)
        ensures
            match r {
                Ok(bom) => ({
                    let btab = Block {
                        offset: dec_u32(file@.subrange(16, 20)),
                        len: dec_u32(file@.subrange(20, 24)),
                    };
                    let ntab = Block {
                        offset: dec_u32(file@.subrange(24, 28)),
                        len: dec_u32(file@.subrange(28, 32)),
                    };
                    &&& file@.len() >= 512
                    &&& file@.subrange(0, 8) == bom_magic()
                    &&& dec_u32(file@.subrange(8, 12)) == 1
                    &&& btab.end() <= file@.len()
                    &&& ntab.end() <= file@.len()
                    &&& bom.wf()
                    &&& ({
                        let bdata = file@.subrange(btab.offset as int, btab.end());
                        bom.spec_blocks().enc() == bdata.take(bom.spec_blocks().enc().len() as int)
                            && dec_blocks(bdata) == Some(
                            (bom.spec_blocks().list(), bom.spec_blocks().free_list()),
                        )
                    })
                    &&& ({
                        let ndata = file@.subrange(ntab.offset as int, ntab.end());
                        ndata.len() >= 4 && dec_named_entries(
                            ndata,
                            4,
                            dec_u32(ndata.take(4)) as int,
                        ) is Some && dec_named_entries(
                            ndata,
                            4,
                            dec_u32(ndata.take(4)) as int,
                        ).unwrap().0 == bom.spec_named_blocks().entries()
                    })
                }),
                Err(e) => {
                    &&& (file@.len() < 512 ==> e == Error::Truncated)
                    &&& (file@.len() >= 512 && file@.subrange(0, 8) != bom_magic() ==> e
                        == Error::NotABomStore)
                    &&& (file@.len() >= 512 && file@.subrange(0, 8) == bom_magic() && dec_u32(
                        file@.subrange(8, 12),
                    ) != 1 ==> e == Error::UnsupportedVersion)
                    &&& (file@.len() >= 512 && file@.subrange(0, 8) == bom_magic() && dec_u32(
                        file@.subrange(8, 12),
                    ) == 1 ==> ({
                        let btab = Block {
                            offset: dec_u32(file@.subrange(16, 20)),
                            len: dec_u32(file@.subrange(20, 24)),
                        };
                        let ntab = Block {
                            offset: dec_u32(file@.subrange(24, 28)),
                            len: dec_u32(file@.subrange(28, 32)),
                        };
                        ||| btab.end() > file@.len()
                        ||| ntab.end() > file@.len()
                        ||| dec_blocks(file@.subrange(btab.offset as int, btab.end())) is None
                        ||| ({
                            let ndata = file@.subrange(ntab.offset as int, ntab.end());
                            ndata.len() < 4 || dec_named_entries(
                                ndata,
                                4,
                                dec_u32(ndata.take(4)) as int,
                            ) is None
                        })
                    }))
                    &&& (e == Error::Truncated || e == Error::NotABomStore || e
                        == Error::UnsupportedVersion || e == Error::InvalidData)
                },
            },
    {
        if file.len() < BOM_LEN {
            return Err(Error::Truncated);
        }
        let magic: [u8; 8] = [66, 79, 77, 83, 116, 111, 114, 101];
        assert(magic@ =~= bom_magic());
        let head = vstd::slice::slice_subrange(file, 0, 8);
        if !bytes_eq(head, magic.as_slice()) {
            return Err(Error::NotABomStore);
        }
        assert(file@.subrange(0, 8) == bom_magic());
        let mut pos: usize = 8;
        let version = match read_u32(file, &mut pos) {
            Ok(v) => v,
            Err(e) => {
                return Err(e);
            },
        };
        proof {
            lemma_dec_enc_u32(version);
        }
        if version != 1 {
            return Err(Error::UnsupportedVersion);
        }
        let _num_non_null = match read_u32(file, &mut pos) {
            Ok(v) => v,
            Err(e) => {
                return Err(e);
            },
        };
        let btab = match Block::read_be(file, &mut pos) {
            Ok(b) => b,
            Err(e) => {
                return Err(e);
            },
        };
        let ntab = match Block::read_be(file, &mut pos) {
            Ok(b) => b,
            Err(e) => {
                return Err(e);
            },
        };
        proof {
            assert(btab.enc().subrange(0, 4) =~= file@.subrange(16, 20));
            assert(btab.enc().subrange(0, 4) =~= enc_u32(btab.offset));
            assert(btab.enc().subrange(4, 8) =~= file@.subrange(20, 24));
            assert(btab.enc().subrange(4, 8) =~= enc_u32(btab.len));
            lemma_dec_enc_u32(btab.offset);
            lemma_dec_enc_u32(btab.len);
            assert(ntab.enc().subrange(0, 4) =~= file@.subrange(24, 28));
            assert(ntab.enc().subrange(0, 4) =~= enc_u32(ntab.offset));
            assert(ntab.enc().subrange(4, 8) =~= file@.subrange(28, 32));
            assert(ntab.enc().subrange(4, 8) =~= enc_u32(ntab.len));
            lemma_dec_enc_u32(ntab.offset);
            lemma_dec_enc_u32(ntab.len);
        }
        let n = file.len();
        if btab.len as usize > n || btab.offset as usize > n - btab.len as usize {
            return Err(Error::Truncated);
        }
        if ntab.len as usize > n || ntab.offset as usize > n - ntab.len as usize {
            return Err(Error::Truncated);
        }
        let bdata = btab.slice(file);
        let blocks = match Blocks::read_be(bdata) {
            Ok(b) => b,
            Err(e) => {
                return Err(e);
            },
        };
        let ndata = ntab.slice(file);
        let named_blocks = match NamedBlocks::read_be(ndata) {
            Ok(b) => b,
            Err(e) => {
                return Err(e);
            },
        };
        proof {
            let btab2 = Block {
                offset: dec_u32(file@.subrange(16, 20)),
                len: dec_u32(file@.subrange(20, 24)),
            };
            let ntab2 = Block {
                offset: dec_u32(file@.subrange(24, 28)),
                len: dec_u32(file@.subrange(28, 32)),
            };
            assert(btab2 == btab);
            assert(ntab2 == ntab);
            assert(file@.subrange(btab2.offset as int, btab2.end()) == bdata@);
            assert(file@.subrange(ntab2.offset as int, ntab2.end()) == ndata@);
        }
        Ok(Bom { blocks, named_blocks })
    }

    /// Write both tables after the payload, then the header at offset zero.
    ///
    /// The stream's cursor must sit at the end of the payload; on success the
    /// bytes are the payload (padded to at least 512 bytes so that the header
    /// has room), the named-block table, the block-index table, and the
    /// header over the first 512 bytes.
    pub fn write(&self, w: &mut ByteWriter) -> (r: Result<(), Error>)
        requires
            old(w).wf(),
            old(w).cursor() == old(w).bytes().len(),
            self.wf(),
        ensures
            final(w).wf(),
            old(w).bytes().len() <= final(w).bytes().len(),
            match r {
                Ok(()) => ({
                    let base = pad_to(old(w).bytes(), 512);
                    let nb_enc = self.spec_named_blocks().enc();
                    let b_enc = self.spec_blocks().enc();
                    let ntab = Block {
                        offset: base.len() as u32,
                        len: nb_enc.len() as u32,
                    };
                    let btab = Block {
                        offset: (base.len() + nb_enc.len()) as u32,
                        len: b_enc.len() as u32,
                    };
                    &&& base.len() + nb_enc.len() + b_enc.len() <= u32::MAX
                    &&& final(w).bytes() == write_at(
                        base + nb_enc + b_enc,
                        0,
                        enc_header(
                            self.spec_blocks().list().filter(
                                |b: Block| !b.spec_is_null(),
                            ).len() as u32,
                            btab,
                            ntab,
                        ),
                    )
                    &&& final(w).cursor() == 512
                }),
                Err(e) => (e == Error::InvalidData && exists|j: int|
                    0 <= j < self.spec_named_blocks().entries().len() && (#[trigger] self.spec_named_blocks().entries()[j]).0.len() > 255) || (e
                    == Error::FileTooLarge && final(w).bytes().len() > u32::MAX),
            },
    {
        let pos = w.position();
        if pos < BOM_LEN {
            w.seek(BOM_LEN);
        }
        assert(w.bytes() =~= pad_to(old(w).bytes(), 512));
        let ghost base = w.bytes();
        let nb_start = w.position();
        if self.named_blocks.write_be(w).is_err() {
            return Err(Error::InvalidData);
        }
        let nb_end = w.position();
        let ntab = match Block::from_write(nb_start, nb_end) {
            Ok(b) => b,
            Err(e) => {
                return Err(e);
            },
        };
        self.blocks.write_be(w);
        let b_end = w.position();
        let btab = match Block::from_write(nb_end, b_end) {
            Ok(b) => b,
            Err(e) => {
                return Err(e);
            },
        };
        if b_end > u32::MAX as usize {
            return Err(Error::FileTooLarge);
        }
        let ghost full = w.bytes();
        assert(full =~= base + self.spec_named_blocks().enc() + self.spec_blocks().enc());

        // assemble the header, then patch it over the first 512 bytes
        let num_non_null = self.blocks.num_non_null_blocks() as u32;
        let mut h = ByteWriter::new();
        let magic: [u8; 8] = [66, 79, 77, 83, 116, 111, 114, 101];
        h.write_bytes(magic.as_slice());
        h.write_u32(1);
        h.write_u32(num_non_null);
        btab.write_be(&mut h);
        ntab.write_be(&mut h);
        h.write_zeros(480);
        assert(h.bytes() =~= enc_header(num_non_null, btab, ntab));
        let header = h.into_vec();
        w.seek(0);
        assert(w.bytes() =~= full);
        w.write_bytes(header.as_slice());
        proof {
            assert(num_non_null == self.spec_blocks().list().filter(
                |b: Block| !b.spec_is_null(),
            ).len() as u32);
        }
        Ok(())
    }
}

} // verus!
