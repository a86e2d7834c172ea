//! A pointer block: a block that holds only another block's index.
//!
//! The hard-link table stores each inner name tree behind one.

use vstd::prelude::*;

verus! {

use crate::blocks::Blocks;
use crate::error::Error;
use crate::io::ByteWriter;
use crate::io::enc_u32;
use crate::io::read_u32;
use crate::named_blocks::dec_u32;
use crate::named_blocks::lemma_dec_enc_u32;

/// A value stored behind one extra level of block indirection.
#[derive(Clone, Copy, Debug, PartialEq, Eq, Structural)]
pub struct Ptr<T>(pub T);

impl<T> Ptr<T> {
    pub fn new(value: T) -> (r: Self)
        ensures
            r == Ptr::<T>(value),
    {
        Ptr(value)
    }

    pub fn into_inner(self) -> (r: T)
        ensures
            self == Ptr::<T>(r),
    {
        self.0
    }
}

/// Append a block holding the index `target`.
pub fn write_ptr_block(target: u32, w: &mut ByteWriter, blocks: &mut Blocks) -> (r: Result<
    u32,
    Error,
>)
    requires
        old(w).wf(),
        old(w).cursor() == old(w).bytes().len(),
        old(blocks).wf(),
    ensures
        final(w).wf(),
        final(w).cursor() == final(w).bytes().len(),
        final(blocks).wf(),
        final(blocks).free_list() == old(blocks).free_list(),
        old(w).bytes().len() <= final(w).bytes().len(),
        match r {
            Ok(i) => i == old(blocks).list().len() && final(blocks).list() == old(
                blocks,
            ).list().push(
                crate::blocks::Block { offset: old(w).bytes().len() as u32, len: 4u32 },
            ) && final(w).bytes() == old(w).bytes() + enc_u32(target),
            Err(e) => e == Error::FileTooLarge && final(blocks).list() == old(blocks).list() && (
            old(w).bytes().len() > u32::MAX || old(blocks).list().len() == u32::MAX),
        },
{
    let start = w.position();
    w.write_u32(target);
    blocks.append(start, w.position())
}

/// Read the index a pointer block holds.
pub fn read_ptr_block(i: u32, file: &[u8], blocks: &Blocks) -> (r: Result<u32, Error>)
    ensures
        match r {
            Ok(t) => i < blocks.list().len() && ({
                let b = blocks.list()[i as int];
                b.end() <= file@.len() && b.len >= 4 && t == dec_u32(
                    file@.subrange(b.offset as int, b.offset + 4),
                )
            }),
            Err(e) => (e == Error::InvalidBlockIndex && i >= blocks.list().len()) || (e
                == Error::Truncated && i < blocks.list().len() && ({
                let b = blocks.list()[i as int];
                b.end() > file@.len() || b.len < 4
            })),
        },
{
    let data = blocks.slice(i, file)?;
    let mut pos: usize = 0;
    let t = match read_u32(data, &mut pos) {
        Ok(v) => v,
        Err(e) => {
            return Err(e);
        },
    };
    proof {
        lemma_dec_enc_u32(t);
        let b = blocks.list()[i as int];
        assert(data@.subrange(0, 4) =~= file@.subrange(b.offset as int, b.offset + 4));
    }
    Ok(t)
}

} // verus!
