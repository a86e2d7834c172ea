//! The few Mach object header fields used to classify an executable.

use vstd::prelude::*;

verus! {

use crate::error::Error;
use crate::io::enc_u32;
use crate::io::read_u32;
use crate::named_blocks::dec_u32;
use crate::named_blocks::lemma_dec_enc_u32;

/// Whether four bytes carry one of the Mach object magics, in either
/// byte order.
pub open spec fn spec_is_mach_magic(m: u32) -> bool {
    m == 0xfeedface || m == 0xcefaedfe || m == 0xfeedfacf || m == 0xcffaedfe
}

/// The head of a Mach object file.
#[derive(Clone, Copy, Debug, PartialEq, Eq, Structural)]
pub struct MachObject {
    pub cpu_type: u32,
    pub cpu_sub_type: u32,
}

impl MachObject {
    /// Parse the first three header words.
    pub fn read_be(data: &[u8]) -> (r: Result<Self, Error>)
        ensures
            match r {
                Ok(m) => data@.len() >= 12 && spec_is_mach_magic(dec_u32(data@.subrange(0, 4)))
                    && m.cpu_type == dec_u32(data@.subrange(4, 8)) && m.cpu_sub_type == dec_u32(
                    data@.subrange(8, 12),
                ),
                Err(e) => (e == Error::Truncated && data@.len() < 12) || (e == Error::InvalidData
                    && data@.len() >= 4 && !spec_is_mach_magic(dec_u32(data@.subrange(0, 4)))),
            },
    {
        let mut pos: usize = 0;
        let magic = match read_u32(data, &mut pos) {
            Ok(v) => v,
            Err(e) => {
                return Err(e);
            },
        };
        proof {
            lemma_dec_enc_u32(magic);
            assert(data@.subrange(0, 4) =~= enc_u32(magic));
        }
        if !(magic == 0xfeedface || magic == 0xcefaedfe || magic == 0xfeedfacf || magic
            == 0xcffaedfe) {
            return Err(Error::InvalidData);
        }
        let cpu_type = match read_u32(data, &mut pos) {
            Ok(v) => v,
            Err(e) => {
                return Err(e);
            },
        };
        let cpu_sub_type = match read_u32(data, &mut pos) {
            Ok(v) => v,
            Err(e) => {
                return Err(e);
            },
        };
        proof {
            lemma_dec_enc_u32(cpu_type);
            lemma_dec_enc_u32(cpu_sub_type);
            assert(data@.subrange(4, 8) =~= enc_u32(cpu_type));
            assert(data@.subrange(8, 12) =~= enc_u32(cpu_sub_type));
        }
        Ok(MachObject { cpu_type, cpu_sub_type })
    }
}

} // verus!
