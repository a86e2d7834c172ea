//! The few fat-binary header fields used to classify an executable.

use vstd::prelude::*;

verus! {

use crate::error::Error;
use crate::io::read_u32;
use crate::io::read_u64;
use crate::named_blocks::dec_u32;
use crate::named_blocks::lemma_dec_enc_u32;
use crate::receipt::crc::crc32;
use crate::receipt::crc::crc32_of;
use crate::receipt::metadata::ExecutableArch;

/// The big-endian value of eight bytes.
pub open spec fn dec_u64(s: Seq<u8>) -> u64 {
    (((s[0] as u64) << 56) | ((s[1] as u64) << 48) | ((s[2] as u64) << 40) | ((s[3] as u64) << 32)
        | ((s[4] as u64) << 24) | ((s[5] as u64) << 16) | ((s[6] as u64) << 8) | (
    s[7] as u64)) as u64
}

/// Decoding inverts encoding for `u64`.
pub proof fn lemma_dec_enc_u64(v: u64)
    ensures
        dec_u64(crate::io::enc_u64(v)) == v,
{
    let b0 = ((v >> 56) & 0xff) as u8;
    let b1 = ((v >> 48) & 0xff) as u8;
    let b2 = ((v >> 40) & 0xff) as u8;
    let b3 = ((v >> 32) & 0xff) as u8;
    let b4 = ((v >> 24) & 0xff) as u8;
    let b5 = ((v >> 16) & 0xff) as u8;
    let b6 = ((v >> 8) & 0xff) as u8;
    let b7 = (v & 0xff) as u8;
    assert((((b0 as u64) << 56) | ((b1 as u64) << 48) | ((b2 as u64) << 40) | ((b3 as u64) << 32)
        | ((b4 as u64) << 24) | ((b5 as u64) << 16) | ((b6 as u64) << 8) | (b7 as u64)) as u64
        == v) by (bit_vector)
        requires
            b0 == ((v >> 56) & 0xff) as u8,
            b1 == ((v >> 48) & 0xff) as u8,
            b2 == ((v >> 40) & 0xff) as u8,
            b3 == ((v >> 32) & 0xff) as u8,
            b4 == ((v >> 24) & 0xff) as u8,
            b5 == ((v >> 16) & 0xff) as u8,
            b6 == ((v >> 8) & 0xff) as u8,
            b7 == (v & 0xff) as u8;
}

/// One architecture slice of a universal binary.
#[derive(Clone, Copy, Debug, PartialEq, Eq, Structural)]
pub struct FatArch {
    pub cpu_type: u32,
    pub cpu_sub_type: u32,
    pub offset: u64,
    pub size: u64,
}

/// A universal (fat) binary's header.
#[derive(Debug)]
pub struct FatBinary {
    pub arches: Vec<FatArch>,
}

/// How many bytes one architecture record occupies on disk: the cpu
/// fields, the offset and size, and the alignment word that closes
/// every record.
pub open spec fn spec_fat_width(is_64_bit: bool) -> int {
    if is_64_bit {
        28
    } else {
        20
    }
}

/// The architecture record at `pos`.
pub open spec fn spec_fat_arch(data: Seq<u8>, pos: int, is_64_bit: bool) -> FatArch {
    FatArch {
        cpu_type: dec_u32(data.subrange(pos, pos + 4)),
        cpu_sub_type: dec_u32(data.subrange(pos + 4, pos + 8)),
        offset: if is_64_bit {
            dec_u64(data.subrange(pos + 8, pos + 16))
        } else {
            dec_u32(data.subrange(pos + 8, pos + 12)) as u64
        },
        size: if is_64_bit {
            dec_u64(data.subrange(pos + 16, pos + 24))
        } else {
            dec_u32(data.subrange(pos + 12, pos + 16)) as u64
        },
    }
}

/// Whether `data` starts with a complete fat header: a fat magic and
/// room for the declared architecture records.
pub open spec fn spec_fat_parses(data: Seq<u8>) -> bool {
    &&& data.len() >= 8
    &&& (dec_u32(data.subrange(0, 4)) == 0xcafebabe || dec_u32(data.subrange(0, 4)) == 0xcafebabf)
    &&& data.len() >= 8 + (dec_u32(data.subrange(4, 8)) as int) * spec_fat_width(
        dec_u32(data.subrange(0, 4)) == 0xcafebabf,
    )
}

/// The bytes of one architecture slice, clamped to the file's end the
/// way a seek-and-take read clamps them.
pub open spec fn spec_arch_slice(file: Seq<u8>, offset: u64, size: u64) -> Seq<u8> {
    let s = if offset > file.len() {
        file.len() as int
    } else {
        offset as int
    };
    let e = if offset + size > file.len() {
        file.len() as int
    } else {
        offset + size
    };
    file.subrange(s, e)
}

impl FatArch {
    /// Parse one architecture record at `*pos`; 64-bit headers carry
    /// eight-byte offsets and sizes.  Every record closes with an
    /// alignment word, read and discarded.
    pub fn read_be(data: &[u8], pos: &mut usize, is_64_bit: bool) -> (r: Result<Self, Error>)
        ensures
            match r {
                Ok(a) => {
                    &&& a == spec_fat_arch(data@, *old(pos) as int, is_64_bit)
                    &&& *final(pos) == *old(pos) + spec_fat_width(is_64_bit)
                    &&& *final(pos) <= data@.len()
                },
                Err(e) => e == Error::Truncated && *old(pos) + spec_fat_width(is_64_bit)
                    > data@.len(),
            },
    {
        let ghost start = *pos as int;
        let cpu_type = read_u32(data, pos)?;
        let cpu_sub_type = read_u32(data, pos)?;
        proof {
            lemma_dec_enc_u32(cpu_type);
            lemma_dec_enc_u32(cpu_sub_type);
        }
        let (offset, size) = if is_64_bit {
            let offset = read_u64(data, pos)?;
            let size = read_u64(data, pos)?;
            proof {
                lemma_dec_enc_u64(offset);
                lemma_dec_enc_u64(size);
            }
            (offset, size)
        } else {
            let offset = read_u32(data, pos)?;
            let size = read_u32(data, pos)?;
            proof {
                lemma_dec_enc_u32(offset);
                lemma_dec_enc_u32(size);
            }
            (offset as u64, size as u64)
        };
        let _align = read_u32(data, pos)?;
        let a = FatArch { cpu_type, cpu_sub_type, offset, size };
        assert(a == spec_fat_arch(data@, start, is_64_bit));
        Ok(a)
    }

    /// The metadata view of this slice: its size truncated to 32 bits
    /// and the checksum of the slice's bytes.
    pub fn to_executable_arch(&self, file: &[u8]) -> (r: ExecutableArch)
        ensures
            r.cpu_type == self.cpu_type,
            r.cpu_sub_type == self.cpu_sub_type,
            r.size == self.size as u32,
            r.checksum == crc32_of(spec_arch_slice(file@, self.offset, self.size)),
    {
        let n = file.len();
        let start = if self.offset > n as u64 {
            n
        } else {
            self.offset as usize
        };
        let end = if self.size > (n - start) as u64 {
            n
        } else {
            start + self.size as usize
        };
        let slice = vstd::slice::slice_subrange(file, start, end);
        assert(slice@ =~= spec_arch_slice(file@, self.offset, self.size));
        let checksum = crc32(slice);
        #[verifier::truncate]
        let size32 = self.size as u32;
        ExecutableArch {
            cpu_type: self.cpu_type,
            cpu_sub_type: self.cpu_sub_type,
            size: size32,
            checksum,
        }
    }
}

impl FatBinary {
    /// The architecture slices, in header order.
    pub fn arches(&self) -> (r: &Vec<FatArch>)
        ensures
            r@ == self.arches@,
    {
        &self.arches
    }

    /// Parse a fat header at the start of `data`: it succeeds exactly
    /// when a fat magic opens the data and every declared architecture
    /// record fits, and then every record's fields come from its bytes.
    pub fn read_be(data: &[u8]) -> (r: Result<Self, Error>)
        ensures
            match r {
                Ok(fb) => spec_fat_parses(data@) && ({
                    let is64 = dec_u32(data@.subrange(0, 4)) == 0xcafebabf;
                    &&& fb.arches@.len() == dec_u32(data@.subrange(4, 8))
                    &&& forall|k: int|
                        0 <= k < fb.arches@.len() ==> #[trigger] fb.arches@[k] == spec_fat_arch(
                            data@,
                            8 + k * spec_fat_width(is64),
                            is64,
                        )
                }),
                Err(e) => !spec_fat_parses(data@) && ((e == Error::InvalidData && data@.len() >= 4
                    && dec_u32(data@.subrange(0, 4)) != 0xcafebabe && dec_u32(
                    data@.subrange(0, 4),
                ) != 0xcafebabf) || e == Error::Truncated),
            },
    {
        let mut pos: usize = 0;
        let magic = match read_u32(data, &mut pos) {
            Ok(v) => v,
            Err(e) => {
                return Err(e);
            },
        };
        proof {
            lemma_dec_enc_u32(magic);
            assert(data@.subrange(0, 4) =~= crate::io::enc_u32(magic));
        }
        let is_64_bit = if magic == 0xcafebabe {
            false
        } else if magic == 0xcafebabf {
            true
        } else {
            return Err(Error::InvalidData);
        };
        let num_arches = match read_u32(data, &mut pos) {
            Ok(v) => v,
            Err(e) => {
                return Err(e);
            },
        };
        proof {
            lemma_dec_enc_u32(num_arches);
            assert(data@.subrange(4, 8) =~= crate::io::enc_u32(num_arches));
        }
        let ghost is64 = is_64_bit;
        let ghost width = spec_fat_width(is_64_bit);
        let mut arches: Vec<FatArch> = Vec::new();
        let mut i: u32 = 0;
        while i < num_arches
            invariant
                i <= num_arches,
                arches@.len() == i,
                pos == 8 + i * width,
                pos <= data@.len(),
                width == spec_fat_width(is64),
                is64 == is_64_bit,
                is64 == (dec_u32(data@.subrange(0, 4)) == 0xcafebabf),
                num_arches == dec_u32(data@.subrange(4, 8)),
                data@.len() >= 8,
                dec_u32(data@.subrange(0, 4)) == 0xcafebabe || dec_u32(data@.subrange(0, 4))
                    == 0xcafebabf,
                forall|k: int|
                    0 <= k < i ==> #[trigger] arches@[k] == spec_fat_arch(
                        data@,
                        8 + k * width,
                        is64,
                    ),
            decreases num_arches - i,
        {
            let a = match FatArch::read_be(data, &mut pos, is_64_bit) {
                Ok(v) => v,
                Err(e) => {
                    proof {
                        assert(data@.len() < 8 + (i as int) * width + width);
                        assert((i as int) * width + width <= (num_arches as int) * width) by (
                        nonlinear_arith)
                            requires
                                i < num_arches,
                                width == 20 || width == 28,
                        ;
                        assert(!spec_fat_parses(data@));
                    }
                    return Err(e);
                },
            };
            arches.push(a);
            i = i + 1;
        }
        proof {
            assert((num_arches as int) * width == (num_arches as int) * width);
            assert(pos == 8 + (num_arches as int) * width);
            assert(spec_fat_parses(data@));
        }
        Ok(FatBinary { arches })
    }

    /// The metadata view of every slice, in header order.
    pub fn to_executable_arches(&self, file: &[u8]) -> (r: Vec<ExecutableArch>)
        ensures
            r@.len() == self.arches@.len(),
            forall|k: int|
                0 <= k < r@.len() ==> {
                    let a = #[trigger] self.arches@[k];
                    &&& r@[k].cpu_type == a.cpu_type
                    &&& r@[k].cpu_sub_type == a.cpu_sub_type
                    &&& r@[k].size == a.size as u32
                    &&& r@[k].checksum == crc32_of(spec_arch_slice(file@, a.offset, a.size))
                },
    {
        let mut r: Vec<ExecutableArch> = Vec::new();
        let mut i: usize = 0;
        while i < self.arches.len()
            invariant
                i <= self.arches@.len(),
                r@.len() == i,
                forall|k: int|
                    0 <= k < i ==> {
                        let a = #[trigger] self.arches@[k];
                        &&& r@[k].cpu_type == a.cpu_type
                        &&& r@[k].cpu_sub_type == a.cpu_sub_type
                        &&& r@[k].size == a.size as u32
                        &&& r@[k].checksum == crc32_of(spec_arch_slice(file@, a.offset, a.size))
                    },
            decreases self.arches@.len() - i,
        {
            let a = self.arches[i].to_executable_arch(file);
            r.push(a);
            i = i + 1;
        }
        r
    }
}

/// The executable records a complete fat header denotes: one per
/// declared slice, each carrying its header fields, its size truncated
/// to 32 bits, and the checksum of its slice of the file.
pub open spec fn spec_fat_exec_arches(data: Seq<u8>) -> Seq<ExecutableArch> {
    let is64 = dec_u32(data.subrange(0, 4)) == 0xcafebabf;
    Seq::new(
        dec_u32(data.subrange(4, 8)) as nat,
        |k: int|
            {
                let a = spec_fat_arch(data, 8 + k * spec_fat_width(is64), is64);
                ExecutableArch {
                    cpu_type: a.cpu_type,
                    cpu_sub_type: a.cpu_sub_type,
                    size: a.size as u32,
                    checksum: crc32_of(spec_arch_slice(data, a.offset, a.size)),
                }
            },
    )
}

/// Whether `data` opens with a Mach object header.
pub open spec fn spec_mach_parses(data: Seq<u8>) -> bool {
    data.len() >= 12 && crate::receipt::mach::spec_is_mach_magic(dec_u32(data.subrange(0, 4)))
}

/// Classify a regular file from its bytes, the way building metadata
/// from disk does: a complete fat header with at least one slice makes
/// it a fat executable with one record per slice; otherwise a Mach
/// object header makes it a single-architecture executable whose record
/// carries the file's own size and checksum; anything else stays a
/// plain file.
pub fn classify_file(
    common: crate::receipt::metadata::Common,
    checksum: u32,
    contents: &[u8],
) -> (r: crate::receipt::metadata::Metadata)
    ensures
        spec_fat_parses(contents@) && dec_u32(contents@.subrange(4, 8)) > 0 ==> r@ == (
        crate::receipt::metadata::MetadataView::Executable {
            common,
            checksum,
            arches: spec_fat_exec_arches(contents@),
            is_fat: true,
        }),
        spec_fat_parses(contents@) && dec_u32(contents@.subrange(4, 8)) == 0 ==> r@ == (
        crate::receipt::metadata::MetadataView::File { common, checksum }),
        !spec_fat_parses(contents@) && spec_mach_parses(contents@) ==> r@ == (
        crate::receipt::metadata::MetadataView::Executable {
            common,
            checksum,
            arches: seq![
                ExecutableArch {
                    cpu_type: dec_u32(contents@.subrange(4, 8)),
                    cpu_sub_type: dec_u32(contents@.subrange(8, 12)),
                    size: common.size as u32,
                    checksum,
                },
            ],
            is_fat: false,
        }),
        !spec_fat_parses(contents@) && !spec_mach_parses(contents@) ==> r@ == (
        crate::receipt::metadata::MetadataView::File { common, checksum }),
{
    match FatBinary::read_be(contents) {
        Ok(fat) => {
            let arches = fat.to_executable_arches(contents);
            if arches.len() > 0 {
                proof {
                    let is64 = dec_u32(contents@.subrange(0, 4)) == 0xcafebabf;
                    assert(arches@.len() == spec_fat_exec_arches(contents@).len());
                    assert forall|k: int| 0 <= k < arches@.len() implies #[trigger] arches@[k]
                        == spec_fat_exec_arches(contents@)[k] by {
                        let a = fat.arches@[k];
                        assert(a == spec_fat_arch(contents@, 8 + k * spec_fat_width(is64), is64));
                        assert(arches@[k].cpu_type == a.cpu_type);
                        assert(arches@[k].cpu_sub_type == a.cpu_sub_type);
                        assert(arches@[k].size == a.size as u32);
                        assert(arches@[k].checksum == crc32_of(
                            spec_arch_slice(contents@, a.offset, a.size),
                        ));
                    }
                    assert(arches@ =~= spec_fat_exec_arches(contents@));
                }
                crate::receipt::metadata::Metadata::Executable(
                    crate::receipt::metadata::Executable {
                        common,
                        checksum,
                        arches,
                        is_fat: true,
                    },
                )
            } else {
                crate::receipt::metadata::Metadata::File(
                    crate::receipt::metadata::File { common, checksum },
                )
            }
        },
        Err(_) => {
            match crate::receipt::mach::MachObject::read_be(contents) {
                Ok(mach) => {
                    #[verifier::truncate]
                    let size32 = common.size as u32;
                    let mut arches: Vec<ExecutableArch> = Vec::new();
                    arches.push(
                        ExecutableArch {
                            cpu_type: mach.cpu_type,
                            cpu_sub_type: mach.cpu_sub_type,
                            size: size32,
                            checksum,
                        },
                    );
                    proof {
                        assert(arches@ =~= seq![
                            ExecutableArch {
                                cpu_type: dec_u32(contents@.subrange(4, 8)),
                                cpu_sub_type: dec_u32(contents@.subrange(8, 12)),
                                size: common.size as u32,
                                checksum,
                            },
                        ]);
                    }
                    crate::receipt::metadata::Metadata::Executable(
                        crate::receipt::metadata::Executable {
                            common,
                            checksum,
                            arches,
                            is_fat: false,
                        },
                    )
                },
                Err(_) => crate::receipt::metadata::Metadata::File(
                    crate::receipt::metadata::File { common, checksum },
                ),
            }
        },
    }
}

} // verus!
