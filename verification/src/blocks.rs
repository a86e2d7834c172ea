//! The block store: `(offset, len)` descriptors addressed by dense indices.

use vstd::prelude::*;

verus! {

use crate::error::Error;
use crate::io::ByteWriter;
use crate::io::enc_list;
use crate::io::enc_u32;
use crate::io::lemma_enc_list_snoc;
use crate::io::read_u32;
use crate::named_blocks::dec_u32;
use crate::named_blocks::lemma_dec_enc_u32;

/// A contiguous byte range of the file.
#[derive(Clone, Copy, Debug, PartialEq, Eq, Structural)]
pub struct Block {
    /// Byte offset from the start of the file.
    pub offset: u32,
    /// Size in bytes.
    pub len: u32,
}

impl Block {
    /// A null block occupies an index slot but no file bytes.
    pub open spec fn spec_is_null(&self) -> bool {
        self.offset == 0 && self.len == 0
    }

    /// One past the last byte of the range.
    pub open spec fn end(&self) -> int {
        self.offset + self.len
    }

    /// On-disk form: offset then length, both big-endian.
    pub open spec fn enc(&self) -> Seq<u8> {
        enc_u32(self.offset) + enc_u32(self.len)
    }

    pub fn null() -> (r: Self)
        ensures
            r.offset == 0,
            r.len == 0,
    {
        Block { offset: 0, len: 0 }
    }

    pub fn is_null(&self) -> (r: bool)
        ensures
            r == self.spec_is_null(),
    {
        self.offset == 0 && self.len == 0
    }

    /// The descriptor for bytes written between positions `start` and `end`.
    pub fn from_write(start: usize, end: usize) -> (r: Result<Self, Error>)
        requires
            start <= end,
        ensures
            match r {
                Ok(b) => start <= u32::MAX && end - start <= u32::MAX && b.offset == start && b.len
                    == end - start,
                Err(e) => e == Error::FileTooLarge && (start > u32::MAX || end - start > u32::MAX),
            },
    {
        if start > u32::MAX as usize || end - start > u32::MAX as usize {
            Err(Error::FileTooLarge)
        } else {
            Ok(Block { offset: start as u32, len: (end - start) as u32 })
        }
    }

    /// The bytes of the file this block refers to.
    pub fn slice<'a>(&self, file: &'a [u8]) -> (r: &'a [u8])
        requires
            self.end() <= file@.len(),
        ensures
            r@ == file@.subrange(self.offset as int, self.end()),
    {
        let n = file.len();
        let i = self.offset as usize;
        let j = i + self.len as usize;
        vstd::slice::slice_subrange(file, i, j)
    }

    /// Read one descriptor at `*pos`.
    pub fn read_be(data: &[u8], pos: &mut usize) -> (r: Result<Self, Error>)
        ensures
            match r {
                Ok(b) => *old(pos) + 8 <= data@.len() && *final(pos) == *old(pos) + 8 && b.enc()
                    == data@.subrange(*old(pos) as int, *final(pos) as int),
                Err(e) => e == Error::Truncated && *old(pos) + 8 > data@.len(),
            },
    {
        let offset = read_u32(data, pos)?;
        let len = read_u32(data, pos)?;
        let b = Block { offset, len };
        assert(b.enc() =~= data@.subrange(*old(pos) as int, *old(pos) + 8));
        Ok(b)
    }

    /// Append this descriptor's encoding to the stream.
    pub fn write_be(&self, w: &mut ByteWriter)
        requires
            old(w).wf(),
            old(w).cursor() == old(w).bytes().len(),
        ensures
            final(w).bytes() == old(w).bytes() + self.enc(),
            final(w).cursor() == final(w).bytes().len(),
            final(w).wf(),
    {
        w.write_u32(self.offset);
        w.write_u32(self.len);
        assert(final(w).bytes() =~= old(w).bytes() + self.enc());
    }
}

/// Encoding a descriptor list element by element.
pub open spec fn enc_block_list(s: Seq<Block>) -> Seq<u8> {
    enc_list(s, |b: Block| b.enc())
}

/// The encoding of a descriptor list is eight bytes per descriptor.
pub proof fn lemma_enc_block_list_len(s: Seq<Block>)
    ensures
        enc_block_list(s).len() == 8 * s.len(),
    decreases s.len(),
{
    if s.len() > 0 {
        lemma_enc_block_list_len(s.drop_first());
    }
}

/// Decode `count` descriptors at `pos`, returning them and the position
/// after them.
pub open spec fn dec_block_list(data: Seq<u8>, pos: int, count: int) -> Option<(Seq<Block>, int)>
    decreases count,
{
    if count <= 0 {
        Some((Seq::empty(), pos))
    } else if pos + 8 > data.len() {
        None
    } else {
        let b = Block {
            offset: dec_u32(data.subrange(pos, pos + 4)),
            len: dec_u32(data.subrange(pos + 4, pos + 8)),
        };
        match dec_block_list(data, pos + 8, count - 1) {
            Some((rest, end)) => Some((seq![b] + rest, end)),
            None => None,
        }
    }
}

/// Decode a whole store table: the counted occupied list, then the
/// counted free list.
pub open spec fn dec_blocks(data: Seq<u8>) -> Option<(Seq<Block>, Seq<Block>)> {
    if data.len() < 4 {
        None
    } else {
        match dec_block_list(data, 4, dec_u32(data.subrange(0, 4)) as int) {
            None => None,
            Some((list, mid)) => if mid + 4 > data.len() {
                None
            } else {
                match dec_block_list(
                    data,
                    mid + 4,
                    dec_u32(data.subrange(mid, mid + 4)) as int,
                ) {
                    None => None,
                    Some((free, _end)) => Some((list, free)),
                }
            },
        }
    }
}

/// Block `bk` of `bytes` holds exactly `content`.
pub open spec fn block_holds(bytes: Seq<u8>, bk: Block, content: Seq<u8>) -> bool {
    bk.end() <= bytes.len() && bytes.subrange(bk.offset as int, bk.end()) == content
}

/// A written block stays written when the stream is extended.
pub proof fn lemma_block_holds_frame(b1: Seq<u8>, b2: Seq<u8>, bk: Block, content: Seq<u8>)
    requires
        block_holds(b1, bk, content),
        b1.len() <= b2.len(),
        b2.take(b1.len() as int) == b1,
    ensures
        block_holds(b2, bk, content),
{
    crate::io::lemma_extend_preserves_subrange(b1, b2, bk.offset as int, bk.end());
}

/// Not enough bytes for `count` descriptors: the decode refuses.
pub proof fn lemma_dec_block_list_short(data: Seq<u8>, pos: int, count: int)
    requires
        0 <= pos,
        count >= 1,
        data.len() < pos + 8 * count,
    ensures
        dec_block_list(data, pos, count) is None,
    decreases count,
{
    if pos + 8 <= data.len() {
        lemma_dec_block_list_short(data, pos + 8, count - 1);
    }
}

/// Descriptors decode to exactly the list that was encoded, consuming
/// exactly their encoding.
pub proof fn lemma_dec_block_list_of_enc(data: Seq<u8>, pos: int, list: Seq<Block>)
    requires
        0 <= pos,
        pos + 8 * list.len() <= data.len(),
        data.subrange(pos, pos + 8 * list.len()) == enc_block_list(list),
    ensures
        dec_block_list(data, pos, list.len() as int) == Some((list, pos + 8 * list.len())),
    decreases list.len(),
{
    if list.len() == 0 {
        assert(list =~= Seq::<Block>::empty());
    } else {
        let b0 = list[0];
        lemma_enc_block_list_len(list);
        lemma_enc_block_list_len(list.drop_first());
        assert(enc_block_list(list) == b0.enc() + enc_block_list(list.drop_first()));
        assert(b0.enc().len() == 8);
        assert(data.subrange(pos, pos + 8) =~= b0.enc());
        assert(data.subrange(pos, pos + 4) =~= data.subrange(pos, pos + 8).subrange(0, 4));
        assert(data.subrange(pos + 4, pos + 8) =~= data.subrange(pos, pos + 8).subrange(4, 8));
        assert(b0.enc().subrange(0, 4) =~= enc_u32(b0.offset));
        assert(b0.enc().subrange(4, 8) =~= enc_u32(b0.len));
        lemma_dec_enc_u32(b0.offset);
        lemma_dec_enc_u32(b0.len);
        let whole = data.subrange(pos, pos + 8 * list.len());
        assert(whole.subrange(8, whole.len() as int) =~= enc_block_list(list.drop_first()));
        assert(data.subrange(pos + 8, pos + 8 + 8 * (list.drop_first().len() as int))
            =~= whole.subrange(8, whole.len() as int));
        lemma_dec_block_list_of_enc(data, pos + 8, list.drop_first());
        assert(seq![b0] + list.drop_first() =~= list);
    }
}

/// The block store: the occupied descriptor list and the free list.
///
/// Index 0 is always a null block; fresh stores carry two free null
/// descriptors for compatibility with the platform tools.
#[derive(Debug)]
pub struct Blocks {
    blocks: Vec<Block>,
    null_blocks: Vec<Block>,
}

impl Blocks {
    /// The occupied descriptors, in index order.
    pub closed spec fn list(&self) -> Seq<Block> {
        self.blocks@
    }

    /// The free descriptors.
    pub closed spec fn free_list(&self) -> Seq<Block> {
        self.null_blocks@
    }

    /// Both lists stay short enough for their 32-bit counters.
    pub open spec fn wf(&self) -> bool {
        self.list().len() <= u32::MAX && self.free_list().len() <= u32::MAX
    }

    /// On-disk form: counted occupied list, then counted free list.
    pub open spec fn enc(&self) -> Seq<u8> {
        enc_u32(self.list().len() as u32) + enc_block_list(self.list()) + enc_u32(
            self.free_list().len() as u32,
        ) + enc_block_list(self.free_list())
    }

    pub fn new() -> (r: Self)
        ensures
            r.list() == seq![Block { offset: 0u32, len: 0u32 }],
            r.free_list() == seq![Block { offset: 0u32, len: 0u32 }, Block { offset: 0u32, len: 0u32 }],
            r.wf(),
    {
        let r = Blocks {
            blocks: vec![Block { offset: 0, len: 0 }],
            null_blocks: vec![Block { offset: 0, len: 0 }, Block { offset: 0, len: 0 }],
        };
        assert(r.list() =~= seq![Block { offset: 0u32, len: 0u32 }]);
        assert(r.free_list() =~= seq![
            Block { offset: 0u32, len: 0u32 },
            Block { offset: 0u32, len: 0u32 },
        ]);
        r
    }

    /// How many descriptors the store holds, null ones included.
    pub fn len(&self) -> (r: usize)
        ensures
            r == self.list().len(),
    {
        self.blocks.len()
    }

    pub fn block(&self, i: u32) -> (r: &Block)
        requires
            i < self.list().len(),
        ensures
            *r == self.list()[i as int],
    {
        &self.blocks[i as usize]
    }

    /// How many descriptors refer to actual file bytes.
    pub fn num_non_null_blocks(&self) -> (r: usize)
        ensures
            r == self.list().filter(|b: Block| !b.spec_is_null()).len(),
    {
        let mut count: usize = 0;
        let mut i: usize = 0;
        while i < self.blocks.len()
            invariant
                i <= self.list().len(),
                count == self.list().take(i as int).filter(|b: Block| !b.spec_is_null()).len(),
                count <= i,
            decreases self.list().len() - i,
        {
            proof {
                self.list().take(i as int).lemma_filter_push(
                    self.list()[i as int],
                    |b: Block| !b.spec_is_null(),
                );
                assert(self.list().take(i + 1) =~= self.list().take(i as int).push(
                    self.list()[i as int],
                ));
            }
            if !self.blocks[i].is_null() {
                count = count + 1;
            }
            i = i + 1;
        }
        assert(self.list().take(self.list().len() as int) =~= self.list());
        count
    }

    /// Record a block for bytes written between `start` and `end`,
    /// returning its index.
    pub fn append(&mut self, start: usize, end: usize) -> (r: Result<u32, Error>)
        requires
            old(self).wf(),
            start <= end,
        ensures
            final(self).wf(),
            final(self).free_list() == old(self).free_list(),
            match r {
                Ok(i) => old(self).list().len() < u32::MAX && start <= u32::MAX && end - start
                    <= u32::MAX && i == old(self).list().len() && final(self).list() == old(
                    self,
                ).list().push(Block { offset: start as u32, len: (end - start) as u32 }),
                Err(e) => e == Error::FileTooLarge && final(self).list() == old(self).list() && (
                old(self).list().len() == u32::MAX || start > u32::MAX || end - start > u32::MAX),
            },
    {
        if self.blocks.len() >= u32::MAX as usize {
            return Err(Error::FileTooLarge);
        }
        let index = self.blocks.len() as u32;
        let block = Block::from_write(start, end)?;
        self.blocks.push(block);
        Ok(index)
    }

    /// Reserve an index slot at position `pos` without consuming file bytes.
    pub fn append_null(&mut self, pos: usize) -> (r: Result<u32, Error>)
        requires
            old(self).wf(),
        ensures
            final(self).wf(),
            final(self).free_list() == old(self).free_list(),
            match r {
                Ok(i) => old(self).list().len() < u32::MAX && pos <= u32::MAX && i == old(
                    self,
                ).list().len() && final(self).list() == old(self).list().push(
                    Block { offset: pos as u32, len: 0u32 },
                ),
                Err(e) => e == Error::FileTooLarge && final(self).list() == old(self).list() && (
                old(self).list().len() == u32::MAX || pos > u32::MAX),
            },
    {
        if self.blocks.len() >= u32::MAX as usize || pos > u32::MAX as usize {
            return Err(Error::FileTooLarge);
        }
        let index = self.blocks.len() as u32;
        self.blocks.push(Block { offset: pos as u32, len: 0 });
        Ok(index)
    }

    /// The index the next appended block will get.
    pub fn next_block_index(&self) -> (r: u32)
        requires
            self.wf(),
        ensures
            r == self.list().len(),
    {
        self.blocks.len() as u32
    }

    /// The index of the most recently appended block.
    pub fn last_block_index(&self) -> (r: Option<u32>)
        requires
            self.wf(),
        ensures
            match r {
                Some(i) => self.list().len() >= 1 && i == self.list().len() - 1,
                None => self.list().len() == 0,
            },
    {
        let len = self.blocks.len();
        if len != 0 {
            Some((len - 1) as u32)
        } else {
            None
        }
    }

    /// The bytes of the file that block `i` refers to.
    pub fn slice<'a>(&self, i: u32, file: &'a [u8]) -> (r: Result<&'a [u8], Error>)
        ensures
            match r {
                Ok(s) => i < self.list().len() && self.list()[i as int].end() <= file@.len() && s@
                    == file@.subrange(
                    self.list()[i as int].offset as int,
                    self.list()[i as int].end(),
                ),
                Err(e) => (e == Error::InvalidBlockIndex && i >= self.list().len()) || (e
                    == Error::Truncated && i < self.list().len() && self.list()[i as int].end()
                    > file@.len()),
            },
    {
        if (i as usize) >= self.blocks.len() {
            return Err(Error::InvalidBlockIndex);
        }
        let block = &self.blocks[i as usize];
        let n = file.len();
        if block.len as usize > n || block.offset as usize > n - block.len as usize {
            return Err(Error::Truncated);
        }
        Ok(block.slice(file))
    }

    /// Append the store's encoding to the stream.
    pub fn write_be(&self, w: &mut ByteWriter)
        requires
            old(w).wf(),
            old(w).cursor() == old(w).bytes().len(),
            self.wf(),
        ensures
            final(w).bytes() == old(w).bytes() + self.enc(),
            final(w).cursor() == final(w).bytes().len(),
            final(w).wf(),
    {
        write_block_list(&self.blocks, w);
        write_block_list(&self.null_blocks, w);
        assert(final(w).bytes() =~= old(w).bytes() + self.enc());
    }

    /// Parse a store out of the start of `data`; the encoding of the result
    /// is the prefix of `data` that was consumed, and the result is
    /// exactly what the decode of `data` denotes.
    pub fn read_be(data: &[u8]) -> (r: Result<Self, Error>)
        ensures
            match r {
                Ok(b) => b.wf() && b.enc().len() <= data@.len() && b.enc() == data@.take(
                    b.enc().len() as int,
                ) && dec_blocks(data@) == Some((b.list(), b.free_list())),
                Err(e) => e == Error::Truncated && dec_blocks(data@) is None,
            },
    {
        let mut pos: usize = 0;
        let blocks = match read_block_list(data, &mut pos) {
            Ok(v) => v,
            Err(e) => {
                proof {
                    if data@.len() >= 4 {
                        let c1 = dec_u32(data@.subrange(0, 4)) as int;
                        if c1 >= 1 && data@.len() < 4 + 8 * c1 {
                            lemma_dec_block_list_short(data@, 4, c1);
                        }
                    }
                    assert(dec_blocks(data@) is None);
                }
                return Err(e);
            },
        };
        let ghost mid = pos as int;
        proof {
            lemma_enc_block_list_len(blocks@);
            lemma_dec_enc_u32(blocks@.len() as u32);
            assert(data@.subrange(0, mid).len() == mid);
            assert((enc_u32(blocks@.len() as u32) + enc_block_list(blocks@)).len() == 4 + 8 * (
            blocks@.len() as int));
            assert(mid == 4 + 8 * (blocks@.len() as int));
            assert(data@.subrange(0, 4) =~= data@.subrange(0, mid).subrange(0, 4));
            assert(data@.subrange(0, mid).subrange(0, 4) =~= enc_u32(blocks@.len() as u32));
            assert(data@.subrange(4, 4 + 8 * (blocks@.len() as int)) =~= data@.subrange(
                0,
                mid,
            ).subrange(4, mid));
            assert(data@.subrange(0, mid).subrange(4, mid) =~= enc_block_list(blocks@));
            lemma_dec_block_list_of_enc(data@, 4, blocks@);
            assert(dec_block_list(data@, 4, dec_u32(data@.subrange(0, 4)) as int) == Some(
                (blocks@, mid),
            ));
        }
        let null_blocks = match read_block_list(data, &mut pos) {
            Ok(v) => v,
            Err(e) => {
                proof {
                    if mid + 4 <= data@.len() {
                        let c2 = dec_u32(data@.subrange(mid, mid + 4)) as int;
                        if c2 >= 1 && data@.len() < mid + 4 + 8 * c2 {
                            lemma_dec_block_list_short(data@, mid + 4, c2);
                        }
                    }
                    assert(dec_blocks(data@) is None);
                }
                return Err(e);
            },
        };
        let r = Blocks { blocks, null_blocks };
        proof {
            lemma_enc_block_list_len(null_blocks@);
            lemma_dec_enc_u32(null_blocks@.len() as u32);
            assert(data@.subrange(mid, pos as int).len() == pos - mid);
            assert((enc_u32(null_blocks@.len() as u32) + enc_block_list(null_blocks@)).len() == 4
                + 8 * (null_blocks@.len() as int));
            assert(pos as int == mid + 4 + 8 * (null_blocks@.len() as int));
            assert(data@.subrange(mid, mid + 4) =~= data@.subrange(mid, pos as int).subrange(
                0,
                4,
            ));
            assert(data@.subrange(mid, pos as int).subrange(0, 4) =~= enc_u32(
                null_blocks@.len() as u32,
            ));
            assert(data@.subrange(mid + 4, mid + 4 + 8 * (null_blocks@.len() as int))
                =~= data@.subrange(mid, pos as int).subrange(4, pos - mid));
            assert(data@.subrange(mid, pos as int).subrange(4, pos - mid) =~= enc_block_list(
                null_blocks@,
            ));
            lemma_dec_block_list_of_enc(data@, mid + 4, null_blocks@);
            assert(data@.subrange(0, mid) + data@.subrange(mid, pos as int) =~= data@.take(
                pos as int,
            ));
            assert(r.enc() =~= data@.take(pos as int));
            assert(dec_blocks(data@) == Some((r.list(), r.free_list())));
        }
        Ok(r)
    }
}

/// Append a counted descriptor list to the stream.
fn write_block_list(list: &Vec<Block>, w: &mut ByteWriter)
    requires
        old(w).wf(),
        old(w).cursor() == old(w).bytes().len(),
        list@.len() <= u32::MAX,
    ensures
        final(w).bytes() == old(w).bytes() + enc_u32(list@.len() as u32) + enc_block_list(list@),
        final(w).cursor() == final(w).bytes().len(),
        final(w).wf(),
{
    w.write_u32(list.len() as u32);
    let ghost header = old(w).bytes() + enc_u32(list@.len() as u32);
    let mut i: usize = 0;
    assert(enc_list(list@.take(0), |b: Block| b.enc()) =~= Seq::<u8>::empty());
    assert(w.bytes() =~= header + enc_list(list@.take(0), |b: Block| b.enc()));
    while i < list.len()
        invariant
            i <= list@.len(),
            w.wf(),
            w.cursor() == w.bytes().len(),
            w.bytes() == header + enc_list(list@.take(i as int), |b: Block| b.enc()),
        decreases list@.len() - i,
    {
        let ghost pre = w.bytes();
        list[i].write_be(w);
        proof {
            lemma_enc_list_snoc(list@, i as int, |b: Block| b.enc());
            assert(w.bytes() =~= header + enc_list(list@.take(i + 1), |b: Block| b.enc()));
        }
        i = i + 1;
    }
    assert(list@.take(list@.len() as int) =~= list@);
}

/// Parse a counted descriptor list at `*pos`.
fn read_block_list(data: &[u8], pos: &mut usize) -> (r: Result<Vec<Block>, Error>)
    ensures
        match r {
            Ok(v) => v@.len() <= u32::MAX && *final(pos) <= data@.len() && *old(pos)
                <= *final(pos) && enc_u32(v@.len() as u32) + enc_block_list(v@) == data@.subrange(
                *old(pos) as int,
                *final(pos) as int,
            ),
            Err(e) => e == Error::Truncated && (*old(pos) + 4 > data@.len() || data@.len() < *old(
                pos,
            ) + 4 + 8 * (dec_u32(data@.subrange(*old(pos) as int, *old(pos) + 4)) as int)),
        },
{
    let count = read_u32(data, pos)?;
    let ghost start = *old(pos) as int;
    let ghost body_start = *pos as int;
    proof {
        lemma_dec_enc_u32(count);
        assert(data@.subrange(start, start + 4) =~= enc_u32(count));
    }
    let mut v: Vec<Block> = Vec::new();
    let mut i: u32 = 0;
    assert(enc_list(v@.take(0), |b: Block| b.enc()) =~= Seq::<u8>::empty());
    while i < count
        invariant
            i <= count,
            v@.len() == i,
            0 <= body_start <= *pos <= data@.len(),
            body_start == start + 4,
            start == *old(pos),
            0 <= start,
            start + 4 <= data@.len(),
            count == dec_u32(data@.subrange(start, start + 4)),
            *pos == body_start + 8 * (i as int),
            enc_block_list(v@) == data@.subrange(body_start, *pos as int),
        decreases count - i,
    {
        let ghost pre_pos = *pos as int;
        let ghost pre_v = v@;
        let block = match Block::read_be(data, pos) {
            Ok(b) => b,
            Err(e) => {
                proof {
                    assert((i as int) * 8 + 8 <= (count as int) * 8) by (nonlinear_arith)
                        requires
                            i < count,
                    ;
                    assert(data@.len() < start + 4 + 8 * (count as int));
                }
                return Err(e);
            },
        };
        v.push(block);
        proof {
            lemma_enc_list_snoc(v@, i as int, |b: Block| b.enc());
            assert(v@.take(i as int) =~= pre_v);
            assert(v@.take(i + 1) =~= v@);
            assert(data@.subrange(body_start, pre_pos) + data@.subrange(pre_pos, *pos as int)
                =~= data@.subrange(body_start, *pos as int));
            assert(enc_block_list(v@) =~= data@.subrange(body_start, *pos as int));
        }
        i = i + 1;
    }
    proof {
        assert(data@.subrange(start, body_start) == enc_u32(count));
        assert(enc_u32(v@.len() as u32) + enc_block_list(v@) =~= data@.subrange(
            start,
            *pos as int,
        ));
    }
    Ok(v)
}

} // verus!
