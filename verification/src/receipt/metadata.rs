//! Per-file metadata records: variant-tagged, with a `flags` word that
//! carries the binary classification and the path-only marker.

use vstd::prelude::*;

verus! {

use crate::error::Error;
use crate::io::ByteWriter;
use crate::io::enc_list;
use crate::io::enc_u16;
use crate::io::enc_u32;
use crate::io::enc_u8;
use crate::io::lemma_enc_list_snoc;
use crate::io::read_exact;
use crate::io::read_u16;
use crate::io::read_u32;
use crate::io::read_u8;
use crate::io::zeros;
use crate::named_blocks::dec_u32;
use crate::named_blocks::has_nul;
use crate::named_blocks::lemma_dec_enc_u32;
use crate::receipt::file_type::EntryType;
use crate::receipt::file_type::FileType;
use crate::receipt::file_type::entry_type_code;
use crate::receipt::file_type::spec_entry_type;
use crate::receipt::file_type::spec_file_type;
use crate::tree::dec_u16;
use crate::tree::lemma_dec_enc_u16;

/// The fields every full record carries.
#[derive(Clone, Copy, Debug, PartialEq, Eq, Structural)]
pub struct Common {
    pub mode: u16,
    pub uid: u32,
    pub gid: u32,
    pub mtime: u32,
    pub size: u64,
}

/// One architecture of an executable.
#[derive(Clone, Copy, Debug, PartialEq, Eq, Structural)]
pub struct ExecutableArch {
    pub cpu_type: u32,
    pub cpu_sub_type: u32,
    pub size: u32,
    pub checksum: u32,
}

impl ExecutableArch {
    pub fn new(cpu_type: u32, cpu_sub_type: u32, size: u32, checksum: u32) -> (r: Self)
        ensures
            r == (ExecutableArch { cpu_type, cpu_sub_type, size, checksum }),
    {
        ExecutableArch { cpu_type, cpu_sub_type, size, checksum }
    }

    /// Get the CPU type, as Mach declares it.
    pub fn cpu_type(&self) -> (r: u32)
        ensures
            r == self.cpu_type,
    {
        self.cpu_type
    }

    /// Get the CPU subtype, as Mach declares it.
    pub fn cpu_sub_type(&self) -> (r: u32)
        ensures
            r == self.cpu_sub_type,
    {
        self.cpu_sub_type
    }

    /// Get this architecture's slice size; it wraps for slices of 4 GiB
    /// and more.
    pub fn size(&self) -> (r: u32)
        ensures
            r == self.size,
    {
        self.size
    }

    /// Get the checksum of this architecture's slice.
    pub fn checksum(&self) -> (r: u32)
        ensures
            r == self.checksum,
    {
        self.checksum
    }

    /// On-disk form: four big-endian words.
    pub open spec fn enc(&self) -> Seq<u8> {
        enc_u32(self.cpu_type) + enc_u32(self.cpu_sub_type) + enc_u32(self.size) + enc_u32(
            self.checksum,
        )
    }
}

/// Binary file type.
#[derive(Clone, Copy, Debug, PartialEq, Eq, Hash, Structural)]
pub enum BinaryType {
    /// Mach object file.
    Mach,
    /// Universal binary file.
    Fat,
}

/// The flags nibble that stands for a binary type.
pub open spec fn binary_type_code(t: BinaryType) -> u8 {
    match t {
        BinaryType::Mach => 1u8,
        BinaryType::Fat => 2u8,
    }
}

/// The binary type a flags word denotes, if any.
pub open spec fn spec_binary_type(flags: u16) -> Option<BinaryType> {
    let c = (flags >> 12) & 0xf;
    if c == 1 {
        Some(BinaryType::Mach)
    } else if c == 2 {
        Some(BinaryType::Fat)
    } else {
        None
    }
}

/// Whether a flags word marks a path-only record.
pub open spec fn spec_is_path_only(flags: u16) -> bool {
    flags & 0xf == 0
}

/// Whether a flags word marks a path-only record.
pub fn is_path_only(flags: u16) -> (r: bool)
    ensures
        r == spec_is_path_only(flags),
{
    flags & 0xf == 0
}

/// The binary type a flags word denotes, if any.
pub fn get_binary_type(flags: u16) -> (r: Option<BinaryType>)
    ensures
        r == spec_binary_type(flags),
{
    let c = (flags >> 12) & 0xf;
    if c == 1 {
        Some(BinaryType::Mach)
    } else if c == 2 {
        Some(BinaryType::Fat)
    } else {
        None
    }
}

/// The pure value of a metadata record.
pub enum MetadataView {
    File { common: Common, checksum: u32 },
    Executable { common: Common, checksum: u32, arches: Seq<ExecutableArch>, is_fat: bool },
    Directory { common: Common },
    Link { common: Common, checksum: u32, target: Seq<u8> },
    Device { common: Common, dev: u32 },
    Entry { entry_type: EntryType },
}

impl MetadataView {
    pub open spec fn common(self) -> Common {
        match self {
            MetadataView::File { common, .. } => common,
            MetadataView::Executable { common, .. } => common,
            MetadataView::Directory { common } => common,
            MetadataView::Link { common, .. } => common,
            MetadataView::Device { common, .. } => common,
            MetadataView::Entry { .. } => Common { mode: 0, uid: 0, gid: 0, mtime: 0, size: 0 },
        }
    }

    pub open spec fn size(self) -> u64 {
        self.common().size
    }

    pub open spec fn entry_type(self) -> EntryType {
        match self {
            MetadataView::File { .. } => EntryType::File,
            MetadataView::Executable { .. } => EntryType::File,
            MetadataView::Directory { .. } => EntryType::Directory,
            MetadataView::Link { .. } => EntryType::Link,
            MetadataView::Device { .. } => EntryType::Device,
            MetadataView::Entry { entry_type } => entry_type,
        }
    }

    pub open spec fn checksum(self) -> u32 {
        match self {
            MetadataView::File { checksum, .. } => checksum,
            MetadataView::Executable { checksum, .. } => checksum,
            MetadataView::Link { checksum, .. } => checksum,
            _ => 0,
        }
    }

    pub open spec fn binary_type(self) -> Option<BinaryType> {
        match self {
            MetadataView::Executable { is_fat, .. } => Some(
                if is_fat {
                    BinaryType::Fat
                } else {
                    BinaryType::Mach
                },
            ),
            _ => None,
        }
    }

    /// The stored flags word: binary classification high, path-only low.
    pub open spec fn flags(self) -> u16 {
        let bt: u16 = match self.binary_type() {
            Some(t) => binary_type_code(t) as u16,
            None => 0u16,
        };
        let po: u16 = match self {
            MetadataView::Entry { .. } => 0u16,
            _ => 0xfu16,
        };
        ((bt & 0xf) << 12) | (po & 0xf)
    }

    /// `self` with its true size replaced.
    pub open spec fn with_size(self, size: u64) -> MetadataView {
        match self {
            MetadataView::File { common, checksum } => MetadataView::File {
                common: Common { size, ..common },
                checksum,
            },
            MetadataView::Executable { common, checksum, arches, is_fat } => {
                MetadataView::Executable {
                    common: Common { size, ..common },
                    checksum,
                    arches,
                    is_fat,
                }
            },
            MetadataView::Directory { common } => MetadataView::Directory {
                common: Common { size, ..common },
            },
            MetadataView::Link { common, checksum, target } => MetadataView::Link {
                common: Common { size, ..common },
                checksum,
                target,
            },
            MetadataView::Device { common, dev } => MetadataView::Device {
                common: Common { size, ..common },
                dev,
            },
            MetadataView::Entry { entry_type } => MetadataView::Entry { entry_type },
        }
    }

    /// The file type the record's mode must carry.
    pub open spec fn expected_file_type(self) -> Option<FileType> {
        match self {
            MetadataView::File { .. } => Some(FileType::Regular),
            MetadataView::Executable { .. } => Some(FileType::Regular),
            MetadataView::Directory { .. } => Some(FileType::Directory),
            MetadataView::Link { .. } => Some(FileType::Symlink),
            MetadataView::Device { .. } => None,
            MetadataView::Entry { .. } => None,
        }
    }

    /// A record the codec can write and read back.
    pub open spec fn wf(self) -> bool {
        match self {
            MetadataView::File { common, .. } => spec_file_type(common.mode) == Some(
                FileType::Regular,
            ),
            MetadataView::Executable { common, arches, .. } => spec_file_type(common.mode) == Some(
                FileType::Regular,
            ) && arches.len() <= u32::MAX,
            MetadataView::Directory { common } => spec_file_type(common.mode) == Some(
                FileType::Directory,
            ),
            MetadataView::Link { common, target, .. } => spec_file_type(common.mode) == Some(
                FileType::Symlink,
            ) && !has_nul(target) && target.len() + 1 <= u32::MAX,
            MetadataView::Device { common, .. } => {
                spec_file_type(common.mode) == Some(FileType::CharDevice) || spec_file_type(
                    common.mode,
                ) == Some(FileType::BlockDevice)
            },
            MetadataView::Entry { .. } => true,
        }
    }
}

/// The common block on disk; the size field keeps the low 32 bits only.
pub open spec fn enc_common(c: Common) -> Seq<u8> {
    enc_u16(c.mode) + enc_u32(c.uid) + enc_u32(c.gid) + enc_u32(c.mtime) + enc_u32(c.size as u32)
        + enc_u8(1)
}

/// A metadata record on disk.
pub open spec fn enc_metadata(m: MetadataView) -> Seq<u8> {
    let head = enc_u8(entry_type_code(m.entry_type())) + enc_u8(1) + enc_u16(m.flags());
    match m {
        MetadataView::Entry { .. } => head,
        MetadataView::File { common, checksum } => head + enc_common(common) + enc_u32(checksum)
            + zeros(8),
        MetadataView::Executable { common, checksum, arches, .. } => head + enc_common(common)
            + enc_u32(checksum) + enc_u8(1) + enc_u32(arches.len() as u32) + enc_list(
            arches,
            |a: ExecutableArch| a.enc(),
        ) + zeros(8),
        MetadataView::Directory { common } => head + enc_common(common) + zeros(8),
        MetadataView::Link { common, checksum, target } => head + enc_common(common) + enc_u32(
            checksum,
        ) + enc_u32((target.len() + 1) as u32) + target + enc_u8(0) + zeros(8),
        MetadataView::Device { common, dev } => head + enc_common(common) + enc_u32(dev) + zeros(
            8,
        ),
    }
}

/// Decode `count` architecture records at `pos`.
pub open spec fn dec_arches(data: Seq<u8>, pos: int, count: int) -> Option<Seq<ExecutableArch>>
    decreases count,
{
    if count <= 0 {
        Some(Seq::empty())
    } else if pos + 16 > data.len() {
        None
    } else {
        let a = ExecutableArch {
            cpu_type: dec_u32(data.subrange(pos, pos + 4)),
            cpu_sub_type: dec_u32(data.subrange(pos + 4, pos + 8)),
            size: dec_u32(data.subrange(pos + 8, pos + 12)),
            checksum: dec_u32(data.subrange(pos + 12, pos + 16)),
        };
        match dec_arches(data, pos + 16, count - 1) {
            Some(rest) => Some(seq![a] + rest),
            None => None,
        }
    }
}

/// The common block starting at `pos`: 19 bytes, trailing marker ignored.
pub open spec fn dec_common(data: Seq<u8>, pos: int) -> Common {
    Common {
        mode: dec_u16(data.subrange(pos, pos + 2)),
        uid: dec_u32(data.subrange(pos + 2, pos + 6)),
        gid: dec_u32(data.subrange(pos + 6, pos + 10)),
        mtime: dec_u32(data.subrange(pos + 10, pos + 14)),
        size: dec_u32(data.subrange(pos + 14, pos + 18)) as u64,
    }
}

/// Decode a metadata record out of a whole block.
///
/// The variant comes from the mode's file-type bits together with the
/// flags word; the eight zero trailer bytes and any further padding are
/// ignored, as are the two constant marker bytes.
pub open spec fn dec_metadata(data: Seq<u8>) -> Option<MetadataView> {
    if data.len() < 4 {
        None
    } else {
        let tag = data[0];
        let flags = dec_u16(data.subrange(2, 4));
        match spec_entry_type(tag) {
            None => None,
            Some(entry_type) => {
                if spec_is_path_only(flags) {
                    Some(MetadataView::Entry { entry_type })
                } else if data.len() < 23 {
                    None
                } else {
                    let common = dec_common(data, 4);
                    let bt = spec_binary_type(flags);
                    match spec_file_type(common.mode) {
                        None => None,
                        Some(FileType::Regular) => {
                            if bt is Some {
                                if data.len() < 36 {
                                    None
                                } else {
                                    let checksum = dec_u32(data.subrange(23, 27));
                                    let narches = dec_u32(data.subrange(28, 32)) as int;
                                    match dec_arches(data, 32, narches) {
                                        Some(arches) => Some(
                                            MetadataView::Executable {
                                                common,
                                                checksum,
                                                arches,
                                                is_fat: bt == Some(BinaryType::Fat),
                                            },
                                        ),
                                        None => None,
                                    }
                                }
                            } else {
                                if data.len() < 27 {
                                    None
                                } else {
                                    Some(
                                        MetadataView::File {
                                            common,
                                            checksum: dec_u32(data.subrange(23, 27)),
                                        },
                                    )
                                }
                            }
                        },
                        Some(FileType::Directory) => Some(MetadataView::Directory { common }),
                        Some(FileType::Symlink) => {
                            if data.len() < 31 {
                                None
                            } else {
                                let checksum = dec_u32(data.subrange(23, 27));
                                let tlen = dec_u32(data.subrange(27, 31)) as int;
                                if tlen < 1 || 31 + tlen > data.len() {
                                    None
                                } else {
                                    let raw = data.subrange(31, 31 + tlen);
                                    if raw.last() != 0 || has_nul(raw.drop_last()) {
                                        None
                                    } else {
                                        Some(
                                            MetadataView::Link {
                                                common,
                                                checksum,
                                                target: raw.drop_last(),
                                            },
                                        )
                                    }
                                }
                            }
                        },
                        Some(FileType::CharDevice) | Some(FileType::BlockDevice) => {
                            if data.len() < 27 {
                                None
                            } else {
                                Some(
                                    MetadataView::Device {
                                        common,
                                        dev: dec_u32(data.subrange(23, 27)),
                                    },
                                )
                            }
                        },
                    }
                }
            },
        }
    }
}

/// File entry.
#[derive(Debug, Clone)]
pub struct File {
    pub common: Common,
    pub checksum: u32,
}

/// Executable entry: a regular binary or a universal (fat) binary.
#[derive(Debug, Clone)]
pub struct Executable {
    pub common: Common,
    pub checksum: u32,
    pub arches: Vec<ExecutableArch>,
    pub is_fat: bool,
}

/// Directory entry.
#[derive(Debug, Clone)]
pub struct Directory {
    pub common: Common,
}

/// Symbolic link entry.
#[derive(Debug, Clone)]
pub struct Link {
    pub common: Common,
    pub checksum: u32,
    pub target: Vec<u8>,
}

/// Device entry.
#[derive(Debug, Clone)]
pub struct Device {
    pub common: Common,
    pub dev: u32,
}

/// Any entry: the catch-all variant for path-only receipts.
#[derive(Debug, Clone)]
pub struct Entry {
    pub entry_type: EntryType,
}

/// File metadata.
#[derive(Debug, Clone)]
pub enum Metadata {
    /// Regular file.
    File(File),
    /// Executable file.
    Executable(Executable),
    /// A directory.
    Directory(Directory),
    /// Symbolic link.
    Link(Link),
    /// Character or block device.
    Device(Device),
    /// Any file; path-only receipts store only this.
    Entry(Entry),
}

impl View for Metadata {
    type V = MetadataView;

    open spec fn view(&self) -> MetadataView {
        match self {
            Metadata::File(f) => MetadataView::File { common: f.common, checksum: f.checksum },
            Metadata::Executable(e) => MetadataView::Executable {
                common: e.common,
                checksum: e.checksum,
                arches: e.arches@,
                is_fat: e.is_fat,
            },
            Metadata::Directory(d) => MetadataView::Directory { common: d.common },
            Metadata::Link(l) => MetadataView::Link {
                common: l.common,
                checksum: l.checksum,
                target: l.target@,
            },
            Metadata::Device(d) => MetadataView::Device { common: d.common, dev: d.dev },
            Metadata::Entry(e) => MetadataView::Entry { entry_type: e.entry_type },
        }
    }
}

impl File {
    /// Get checksum.
    pub fn checksum(&self) -> (r: u32)
        ensures
            r == self.checksum,
    {
        self.checksum
    }
}

impl Executable {
    /// Get checksum.
    pub fn checksum(&self) -> (r: u32)
        ensures
            r == self.checksum,
    {
        self.checksum
    }

    /// Is this a fat binary?
    pub fn is_fat(&self) -> (r: bool)
        ensures
            r == self.is_fat,
    {
        self.is_fat
    }

    /// Get executable type.
    pub fn kind(&self) -> (r: BinaryType)
        ensures
            r == (if self.is_fat {
                BinaryType::Fat
            } else {
                BinaryType::Mach
            }),
    {
        if self.is_fat {
            BinaryType::Fat
        } else {
            BinaryType::Mach
        }
    }

    /// Get all architectures this executable was compiled for.
    pub fn arches(&self) -> (r: &Vec<ExecutableArch>)
        ensures
            r@ == self.arches@,
    {
        &self.arches
    }

    /// Transform into a vector of architectures.
    pub fn into_arches(self) -> (r: Vec<ExecutableArch>)
        ensures
            r@ == self.arches@,
    {
        self.arches
    }
}

impl Link {
    /// Get checksum of the target path.
    pub fn checksum(&self) -> (r: u32)
        ensures
            r == self.checksum,
    {
        self.checksum
    }

    /// Get the target path's bytes, without the stored NUL.
    pub fn target(&self) -> (r: &Vec<u8>)
        ensures
            r@ == self.target@,
    {
        &self.target
    }

    /// Transform into the target path's bytes.
    pub fn into_target(self) -> (r: Vec<u8>)
        ensures
            r@ == self.target@,
    {
        self.target
    }
}

impl Device {
    /// Get the platform-specific device number.
    pub fn rdev(&self) -> (r: u32)
        ensures
            r == self.dev,
    {
        self.dev
    }
}

impl Entry {
    /// Get entry type.
    pub fn kind(&self) -> (r: EntryType)
        ensures
            r == self.entry_type,
    {
        self.entry_type
    }
}

impl Metadata {
    /// Get the file type from the record's mode; records without a mode
    /// and unsupported modes count as regular files.
    pub fn file_type(&self) -> (r: FileType)
        ensures
            r == (match spec_file_type(self@.common().mode) {
                Some(t) => t,
                None => FileType::Regular,
            }),
    {
        match FileType::new(self.mode()) {
            Ok(t) => t,
            Err(_) => FileType::Regular,
        }
    }

    /// Get entry type.
    pub fn entry_type(&self) -> (r: EntryType)
        ensures
            r == self@.entry_type(),
    {
        match self {
            Metadata::File(..) => EntryType::File,
            Metadata::Executable(..) => EntryType::File,
            Metadata::Directory(..) => EntryType::Directory,
            Metadata::Link(..) => EntryType::Link,
            Metadata::Device(..) => EntryType::Device,
            Metadata::Entry(e) => e.entry_type,
        }
    }

    /// Get file mode; zero for path-only records.
    pub fn mode(&self) -> (r: u16)
        ensures
            r == self@.common().mode,
    {
        match self {
            Metadata::File(x) => x.common.mode,
            Metadata::Executable(x) => x.common.mode,
            Metadata::Directory(x) => x.common.mode,
            Metadata::Link(x) => x.common.mode,
            Metadata::Device(x) => x.common.mode,
            Metadata::Entry(..) => 0,
        }
    }

    /// Get the file owner's user id; zero for path-only records.
    pub fn uid(&self) -> (r: u32)
        ensures
            r == self@.common().uid,
    {
        match self {
            Metadata::File(x) => x.common.uid,
            Metadata::Executable(x) => x.common.uid,
            Metadata::Directory(x) => x.common.uid,
            Metadata::Link(x) => x.common.uid,
            Metadata::Device(x) => x.common.uid,
            Metadata::Entry(..) => 0,
        }
    }

    /// Get the file owner's group id; zero for path-only records.
    pub fn gid(&self) -> (r: u32)
        ensures
            r == self@.common().gid,
    {
        match self {
            Metadata::File(x) => x.common.gid,
            Metadata::Executable(x) => x.common.gid,
            Metadata::Directory(x) => x.common.gid,
            Metadata::Link(x) => x.common.gid,
            Metadata::Device(x) => x.common.gid,
            Metadata::Entry(..) => 0,
        }
    }

    /// Get the last modification time; zero for path-only records.
    pub fn mtime(&self) -> (r: u32)
        ensures
            r == self@.common().mtime,
    {
        match self {
            Metadata::File(x) => x.common.mtime,
            Metadata::Executable(x) => x.common.mtime,
            Metadata::Directory(x) => x.common.mtime,
            Metadata::Link(x) => x.common.mtime,
            Metadata::Device(x) => x.common.mtime,
            Metadata::Entry(..) => 0,
        }
    }

    /// Get the true file size; zero for path-only records.
    pub fn size(&self) -> (r: u64)
        ensures
            r == self@.size(),
    {
        match self {
            Metadata::File(x) => x.common.size,
            Metadata::Executable(x) => x.common.size,
            Metadata::Directory(x) => x.common.size,
            Metadata::Link(x) => x.common.size,
            Metadata::Device(x) => x.common.size,
            Metadata::Entry(..) => 0,
        }
    }

    pub(crate) fn set_size(&mut self, value: u64)
        ensures
            final(self)@ == old(self)@.with_size(
                if old(self)@ is Entry {
                    0u64
                } else {
                    value
                },
            ),
    {
        match self {
            Metadata::File(x) => x.common.size = value,
            Metadata::Executable(x) => x.common.size = value,
            Metadata::Directory(x) => x.common.size = value,
            Metadata::Link(x) => x.common.size = value,
            Metadata::Device(x) => x.common.size = value,
            Metadata::Entry(..) => {},
        }
    }

    /// The last modification time as seconds since the epoch.
    pub fn modified(&self) -> (r: u64)
        ensures
            r == self@.common().mtime as u64,
    {
        self.mtime() as u64
    }

    /// Get checksum; zero for directories, devices and path-only records.
    pub fn checksum(&self) -> (r: u32)
        ensures
            r == self@.checksum(),
    {
        match self {
            Metadata::File(x) => x.checksum,
            Metadata::Executable(x) => x.checksum,
            Metadata::Directory(..) => 0,
            Metadata::Link(x) => x.checksum,
            Metadata::Device(..) => 0,
            Metadata::Entry(..) => 0,
        }
    }

    /// Get binary type; `None` for everything but executables.
    pub fn binary_type(&self) -> (r: Option<BinaryType>)
        ensures
            r == self@.binary_type(),
    {
        match self {
            Metadata::Executable(exe) => Some(exe.kind()),
            _ => None,
        }
    }

    /// The stored flags word.
    pub fn flags(&self) -> (r: u16)
        ensures
            r == self@.flags(),
    {
        let path_only: u16 = match self {
            Metadata::Entry(..) => 0,
            _ => 0xf,
        };
        let bt: u16 = match self.binary_type() {
            Some(BinaryType::Mach) => 1,
            Some(BinaryType::Fat) => 2,
            None => 0,
        };
        ((bt & 0xf) << 12) | (path_only & 0xf)
    }

    /// Whether this record is one the codec can write and read back:
    /// the mode's type bits fit the variant, counts fit their fields,
    /// and a link target holds no NUL.
    pub fn check_wf(&self) -> (r: bool)
        ensures
            r == self@.wf(),
    {
        match self {
            Metadata::File(x) => match FileType::new(x.common.mode) {
                Ok(FileType::Regular) => true,
                _ => false,
            },
            Metadata::Executable(x) => {
                let mode_ok = match FileType::new(x.common.mode) {
                    Ok(FileType::Regular) => true,
                    _ => false,
                };
                mode_ok && x.arches.len() as u64 <= u32::MAX as u64
            },
            Metadata::Directory(x) => match FileType::new(x.common.mode) {
                Ok(FileType::Directory) => true,
                _ => false,
            },
            Metadata::Link(x) => {
                let mode_ok = match FileType::new(x.common.mode) {
                    Ok(FileType::Symlink) => true,
                    _ => false,
                };
                if !mode_ok || x.target.len() as u64 >= u32::MAX as u64 {
                    false
                } else {
                    let mut k: usize = 0;
                    let mut clean = true;
                    while k < x.target.len()
                        invariant
                            k <= x.target@.len(),
                            clean == !has_nul(x.target@.take(k as int)),
                        decreases x.target@.len() - k,
                    {
                        let ghost pre = x.target@.take(k as int);
                        if x.target[k] == 0 {
                            clean = false;
                        }
                        k = k + 1;
                        proof {
                            let now = x.target@.take(k as int);
                            assert(pre =~= now.drop_last());
                            if has_nul(pre) {
                                let w = choose|t: int| 0 <= t < pre.len() && pre[t] == 0;
                                assert(now[w] == 0);
                                assert(has_nul(now));
                            }
                            if x.target@[k - 1] == 0 {
                                assert(now[k - 1] == 0);
                                assert(has_nul(now));
                            }
                            if !has_nul(pre) && x.target@[k - 1] != 0 {
                                if has_nul(now) {
                                    let t = choose|t: int|
                                        0 <= t < now.len() && now[t] == 0;
                                    if t < k - 1 {
                                        assert(pre[t] == 0);
                                    }
                                    assert(false);
                                }
                            }
                        }
                    }
                    assert(x.target@.take(x.target@.len() as int) =~= x.target@);
                    clean
                }
            },
            Metadata::Device(x) => match FileType::new(x.common.mode) {
                Ok(FileType::CharDevice) => true,
                Ok(FileType::BlockDevice) => true,
                _ => false,
            },
            Metadata::Entry(..) => true,
        }
    }

    /// A deep copy.
    pub fn duplicate(&self) -> (r: Metadata)
        ensures
            r@ == self@,
    {
        match self {
            Metadata::File(x) => Metadata::File(File { common: x.common, checksum: x.checksum }),
            Metadata::Executable(x) => {
                let mut arches: Vec<ExecutableArch> = Vec::new();
                let mut i: usize = 0;
                while i < x.arches.len()
                    invariant
                        i <= x.arches@.len(),
                        arches@ == x.arches@.take(i as int),
                    decreases x.arches@.len() - i,
                {
                    arches.push(x.arches[i]);
                    i = i + 1;
                    assert(arches@ =~= x.arches@.take(i as int));
                }
                assert(x.arches@.take(x.arches@.len() as int) =~= x.arches@);
                Metadata::Executable(
                    Executable { common: x.common, checksum: x.checksum, arches, is_fat: x.is_fat },
                )
            },
            Metadata::Directory(x) => Metadata::Directory(Directory { common: x.common }),
            Metadata::Link(x) => {
                let mut target: Vec<u8> = Vec::new();
                let mut i: usize = 0;
                while i < x.target.len()
                    invariant
                        i <= x.target@.len(),
                        target@ == x.target@.take(i as int),
                    decreases x.target@.len() - i,
                {
                    target.push(x.target[i]);
                    i = i + 1;
                    assert(target@ =~= x.target@.take(i as int));
                }
                assert(x.target@.take(x.target@.len() as int) =~= x.target@);
                Metadata::Link(Link { common: x.common, checksum: x.checksum, target })
            },
            Metadata::Device(x) => Metadata::Device(Device { common: x.common, dev: x.dev }),
            Metadata::Entry(x) => Metadata::Entry(Entry { entry_type: x.entry_type }),
        }
    }
}

/// The encoding of an architecture list is sixteen bytes per record.
pub proof fn lemma_enc_arch_list_len(s: Seq<ExecutableArch>)
    ensures
        enc_list(s, |a: ExecutableArch| a.enc()).len() == 16 * s.len(),
    decreases s.len(),
{
    if s.len() > 0 {
        lemma_enc_arch_list_len(s.drop_first());
    }
}

impl Metadata {
    /// Append this record's encoding to the stream.
    #[verifier::rlimit(100)]
    #[verifier::spinoff_prover]
    pub fn write_be(&self, w: &mut ByteWriter)
        requires
            old(w).wf(),
            old(w).cursor() == old(w).bytes().len(),
            self@.wf(),
        ensures
            final(w).wf(),
            final(w).cursor() == final(w).bytes().len(),
            final(w).bytes() == old(w).bytes() + enc_metadata(self@),
    {
        let entry_code = self.entry_type().code();
        w.write_u8(entry_code);
        w.write_u8(1);
        w.write_u16(self.flags());
        let ghost head = old(w).bytes() + enc_u8(entry_type_code(self@.entry_type())) + enc_u8(1u8)
            + enc_u16(self@.flags());
        assert(w.bytes() =~= head);
        match self {
            Metadata::Entry(..) => {
                assert(w.bytes() =~= old(w).bytes() + enc_metadata(self@));
            },
            Metadata::File(x) => {
                write_common(&x.common, w);
                w.write_u32(x.checksum);
                w.write_zeros(8);
                assert(w.bytes() =~= old(w).bytes() + enc_metadata(self@));
            },
            Metadata::Executable(x) => {
                write_common(&x.common, w);
                w.write_u32(x.checksum);
                w.write_u8(1);
                w.write_u32(x.arches.len() as u32);
                let ghost mid = w.bytes();
                let mut k: usize = 0;
                assert(enc_list(x.arches@.take(0), |a: ExecutableArch| a.enc()) =~= Seq::<
                    u8,
                >::empty());
                assert(w.bytes() =~= mid + enc_list(
                    x.arches@.take(0),
                    |a: ExecutableArch| a.enc(),
                ));
                while k < x.arches.len()
                    invariant
                        k <= x.arches@.len(),
                        w.wf(),
                        w.cursor() == w.bytes().len(),
                        w.bytes() == mid + enc_list(
                            x.arches@.take(k as int),
                            |a: ExecutableArch| a.enc(),
                        ),
                    decreases x.arches@.len() - k,
                {
                    let a = x.arches[k];
                    w.write_u32(a.cpu_type);
                    w.write_u32(a.cpu_sub_type);
                    w.write_u32(a.size);
                    w.write_u32(a.checksum);
                    proof {
                        lemma_enc_list_snoc(x.arches@, k as int, |a: ExecutableArch| a.enc());
                        assert(w.bytes() =~= mid + enc_list(
                            x.arches@.take(k + 1),
                            |a: ExecutableArch| a.enc(),
                        ));
                    }
                    k = k + 1;
                }
                assert(x.arches@.take(x.arches@.len() as int) =~= x.arches@);
                w.write_zeros(8);
                assert(w.bytes() =~= old(w).bytes() + enc_metadata(self@));
            },
            Metadata::Directory(x) => {
                write_common(&x.common, w);
                w.write_zeros(8);
                assert(w.bytes() =~= old(w).bytes() + enc_metadata(self@));
            },
            Metadata::Link(x) => {
                write_common(&x.common, w);
                w.write_u32(x.checksum);
                w.write_u32((x.target.len() + 1) as u32);
                w.write_bytes(x.target.as_slice());
                w.write_u8(0);
                w.write_zeros(8);
                assert(w.bytes() =~= old(w).bytes() + enc_metadata(self@));
            },
            Metadata::Device(x) => {
                write_common(&x.common, w);
                w.write_u32(x.dev);
                w.write_zeros(8);
                assert(w.bytes() =~= old(w).bytes() + enc_metadata(self@));
            },
        }
    }
}

/// Append the common block.
fn write_common(c: &Common, w: &mut ByteWriter)
    requires
        old(w).wf(),
        old(w).cursor() == old(w).bytes().len(),
    ensures
        final(w).wf(),
        final(w).cursor() == final(w).bytes().len(),
        final(w).bytes() == old(w).bytes() + enc_common(*c),
{
    w.write_u16(c.mode);
    w.write_u32(c.uid);
    w.write_u32(c.gid);
    w.write_u32(c.mtime);
    #[verifier::truncate]
    let size32 = c.size as u32;
    w.write_u32(size32);
    w.write_u8(1);
    assert(final(w).bytes() =~= old(w).bytes() + enc_common(*c));
}

/// Parse a metadata record out of a whole block's bytes.
///
/// The result is exactly what the decode of the bytes denotes; the
/// stored size is the low 32 bits and is overridden later when the
/// 64-bit size table has an entry for this block.
pub fn read_metadata(data: &[u8]) -> (r: Result<Metadata, Error>)
    ensures
        match r {
            Ok(m) => dec_metadata(data@) == Some(m@),
            Err(e) => dec_metadata(data@) is None && (e == Error::Truncated || e
                == Error::InvalidData),
        },
{
    let mut pos: usize = 0;
    let tag = match read_u8(data, &mut pos) {
        Ok(v) => v,
        Err(e) => {
            return Err(e);
        },
    };
    let _x0 = match read_u8(data, &mut pos) {
        Ok(v) => v,
        Err(e) => {
            return Err(e);
        },
    };
    let flags = match read_u16(data, &mut pos) {
        Ok(v) => v,
        Err(e) => {
            return Err(e);
        },
    };
    proof {
        lemma_dec_enc_u16(flags);
        assert(data@.subrange(0, 1)[0] == data@[0]);
        assert(enc_u8(tag)[0] == tag);
        assert(data@[0] == tag);
        assert(data@.subrange(2, 4) =~= enc_u16(flags));
    }
    let entry_type = match EntryType::from_code(tag) {
        Ok(t) => t,
        Err(e) => {
            return Err(e);
        },
    };
    if is_path_only(flags) {
        return Ok(Metadata::Entry(Entry { entry_type }));
    }
    if data.len() < 23 {
        return Err(Error::Truncated);
    }
    let mode = match read_u16(data, &mut pos) {
        Ok(v) => v,
        Err(e) => {
            return Err(e);
        },
    };
    let uid = match read_u32(data, &mut pos) {
        Ok(v) => v,
        Err(e) => {
            return Err(e);
        },
    };
    let gid = match read_u32(data, &mut pos) {
        Ok(v) => v,
        Err(e) => {
            return Err(e);
        },
    };
    let mtime = match read_u32(data, &mut pos) {
        Ok(v) => v,
        Err(e) => {
            return Err(e);
        },
    };
    let size32 = match read_u32(data, &mut pos) {
        Ok(v) => v,
        Err(e) => {
            return Err(e);
        },
    };
    let _x1 = match read_u8(data, &mut pos) {
        Ok(v) => v,
        Err(e) => {
            return Err(e);
        },
    };
    let common = Common { mode, uid, gid, mtime, size: size32 as u64 };
    proof {
        lemma_dec_enc_u16(mode);
        lemma_dec_enc_u32(uid);
        lemma_dec_enc_u32(gid);
        lemma_dec_enc_u32(mtime);
        lemma_dec_enc_u32(size32);
        assert(data@.subrange(4, 6) =~= enc_u16(mode));
        assert(data@.subrange(6, 10) =~= enc_u32(uid));
        assert(data@.subrange(10, 14) =~= enc_u32(gid));
        assert(data@.subrange(14, 18) =~= enc_u32(mtime));
        assert(data@.subrange(18, 22) =~= enc_u32(size32));
        assert(common == dec_common(data@, 4));
    }
    let file_type = match FileType::new(mode) {
        Ok(t) => t,
        Err(e) => {
            return Err(e);
        },
    };
    let binary = get_binary_type(flags);
    match file_type {
        FileType::Regular => {
            if binary.is_some() {
                let is_fat = match binary {
                    Some(BinaryType::Fat) => true,
                    _ => false,
                };
                if data.len() < 36 {
                    return Err(Error::Truncated);
                }
                let checksum = match read_u32(data, &mut pos) {
                    Ok(v) => v,
                    Err(e) => {
                        return Err(e);
                    },
                };
                let _flag = match read_u8(data, &mut pos) {
                    Ok(v) => v,
                    Err(e) => {
                        return Err(e);
                    },
                };
                let narches = match read_u32(data, &mut pos) {
                    Ok(v) => v,
                    Err(e) => {
                        return Err(e);
                    },
                };
                proof {
                    lemma_dec_enc_u32(checksum);
                    lemma_dec_enc_u32(narches);
                    assert(data@.subrange(23, 27) =~= enc_u32(checksum));
                    assert(data@.subrange(28, 32) =~= enc_u32(narches));
                }
                let ghost total = narches as int;
                let ghost common_g = common;
                let mut arches: Vec<ExecutableArch> = Vec::new();
                let mut i: u32 = 0;
                proof {
                    if dec_arches(data@, 32, total) is Some {
                        let rest = dec_arches(data@, 32, total).unwrap();
                        assert(Seq::<ExecutableArch>::empty() + rest =~= rest);
                    }
                    assert(dec_metadata(data@) == (match dec_arches(data@, 32, total) {
                        Some(aa) => Some(
                            MetadataView::Executable { common: common_g, checksum, arches: aa, is_fat },
                        ),
                        None => None::<MetadataView>,
                    }));
                }
                while i < narches
                    invariant
                        i <= narches,
                        arches@.len() == i,
                        32 <= pos <= data@.len(),
                        pos == 32 + 16 * i,
                        total == narches as int,
                        common_g == common,
                        dec_metadata(data@) == (match dec_arches(data@, 32, total) {
                            Some(aa) => Some(
                                MetadataView::Executable {
                                    common: common_g,
                                    checksum,
                                    arches: aa,
                                    is_fat,
                                },
                            ),
                            None => None::<MetadataView>,
                        }),
                        dec_arches(data@, 32, total) == match dec_arches(
                            data@,
                            pos as int,
                            total - i,
                        ) {
                            Some(rest) => Some(arches@ + rest),
                            None => None::<Seq<ExecutableArch>>,
                        },
                    decreases narches - i,
                {
                    let ghost pre_pos = pos as int;
                    let ghost pre = arches@;
                    let ct = match read_u32(data, &mut pos) {
                        Ok(v) => v,
                        Err(e) => {
                            proof {
                                assert(dec_arches(data@, pre_pos, total - i) is None);
                            }
                            return Err(e);
                        },
                    };
                    let cst = match read_u32(data, &mut pos) {
                        Ok(v) => v,
                        Err(e) => {
                            proof {
                                assert(dec_arches(data@, pre_pos, total - i) is None);
                            }
                            return Err(e);
                        },
                    };
                    let sz = match read_u32(data, &mut pos) {
                        Ok(v) => v,
                        Err(e) => {
                            proof {
                                assert(dec_arches(data@, pre_pos, total - i) is None);
                            }
                            return Err(e);
                        },
                    };
                    let ck = match read_u32(data, &mut pos) {
                        Ok(v) => v,
                        Err(e) => {
                            proof {
                                assert(dec_arches(data@, pre_pos, total - i) is None);
                            }
                            return Err(e);
                        },
                    };
                    let a = ExecutableArch {
                        cpu_type: ct,
                        cpu_sub_type: cst,
                        size: sz,
                        checksum: ck,
                    };
                    arches.push(a);
                    proof {
                        lemma_dec_enc_u32(ct);
                        lemma_dec_enc_u32(cst);
                        lemma_dec_enc_u32(sz);
                        lemma_dec_enc_u32(ck);
                        assert(data@.subrange(pre_pos, pre_pos + 4) =~= enc_u32(ct));
                        assert(data@.subrange(pre_pos + 4, pre_pos + 8) =~= enc_u32(cst));
                        assert(data@.subrange(pre_pos + 8, pre_pos + 12) =~= enc_u32(sz));
                        assert(data@.subrange(pre_pos + 12, pre_pos + 16) =~= enc_u32(ck));
                        assert(dec_arches(data@, pre_pos, total - i) == match dec_arches(
                            data@,
                            pos as int,
                            total - i - 1,
                        ) {
                            Some(rest) => Some(seq![a] + rest),
                            None => None::<Seq<ExecutableArch>>,
                        });
                        assert(arches@ =~= pre.push(a));
                        if dec_arches(data@, pos as int, total - i - 1) is Some {
                            let rest = dec_arches(data@, pos as int, total - i - 1).unwrap();
                            assert(pre + (seq![a] + rest) =~= arches@ + rest);
                        }
                    }
                    i = i + 1;
                }
                proof {
                    assert(dec_arches(data@, pos as int, 0) == Some(Seq::<ExecutableArch>::empty()));
                    assert(arches@ + Seq::<ExecutableArch>::empty() =~= arches@);
                }
                Ok(Metadata::Executable(Executable { common, checksum, arches, is_fat }))
            } else {
                if data.len() < 27 {
                    return Err(Error::Truncated);
                }
                let checksum = match read_u32(data, &mut pos) {
                    Ok(v) => v,
                    Err(e) => {
                        return Err(e);
                    },
                };
                proof {
                    lemma_dec_enc_u32(checksum);
                    assert(data@.subrange(23, 27) =~= enc_u32(checksum));
                }
                Ok(Metadata::File(File { common, checksum }))
            }
        },
        FileType::Directory => Ok(Metadata::Directory(Directory { common })),
        FileType::Symlink => {
            if data.len() < 31 {
                return Err(Error::Truncated);
            }
            let checksum = match read_u32(data, &mut pos) {
                Ok(v) => v,
                Err(e) => {
                    return Err(e);
                },
            };
            let tlen = match read_u32(data, &mut pos) {
                Ok(v) => v,
                Err(e) => {
                    return Err(e);
                },
            };
            proof {
                lemma_dec_enc_u32(checksum);
                lemma_dec_enc_u32(tlen);
                assert(data@.subrange(23, 27) =~= enc_u32(checksum));
                assert(data@.subrange(27, 31) =~= enc_u32(tlen));
            }
            if tlen < 1 {
                assert(dec_metadata(data@) is None);
                return Err(Error::InvalidData);
            }
            let mut raw = match read_exact(data, &mut pos, tlen as usize) {
                Ok(v) => v,
                Err(e) => {
                    assert(dec_metadata(data@) is None);
                    return Err(e);
                },
            };
            let ghost raw_spec = raw@;
            let last = raw[raw.len() - 1];
            if last != 0 {
                assert(dec_metadata(data@) is None);
                return Err(Error::InvalidData);
            }
            let _ = raw.pop();
            assert(raw@ =~= raw_spec.drop_last());
            proof {
                assert(dec_metadata(data@) == (if has_nul(raw_spec.drop_last()) {
                    None::<MetadataView>
                } else {
                    Some(
                        MetadataView::Link { common, checksum, target: raw_spec.drop_last() },
                    )
                }));
            }
            let ghost common_g = common;
            let mut k: usize = 0;
            while k < raw.len()
                invariant
                    k <= raw@.len(),
                    raw@ == raw_spec.drop_last(),
                    raw_spec.len() == tlen,
                    tlen >= 1,
                    raw_spec.last() == 0,
                    common_g == common,
                    dec_metadata(data@) == (if has_nul(raw_spec.drop_last()) {
                        None::<MetadataView>
                    } else {
                        Some(
                            MetadataView::Link {
                                common: common_g,
                                checksum,
                                target: raw_spec.drop_last(),
                            },
                        )
                    }),
                    forall|j: int| 0 <= j < k ==> raw@[j] != 0,
                decreases raw@.len() - k,
            {
                if raw[k] == 0 {
                    proof {
                        assert(has_nul(raw_spec.drop_last()));
                    }
                    return Err(Error::InvalidData);
                }
                k = k + 1;
            }
            assert(!has_nul(raw@));
            Ok(Metadata::Link(Link { common, checksum, target: raw }))
        },
        FileType::CharDevice | FileType::BlockDevice => {
            if data.len() < 27 {
                return Err(Error::Truncated);
            }
            let dev = match read_u32(data, &mut pos) {
                Ok(v) => v,
                Err(e) => {
                    return Err(e);
                },
            };
            proof {
                lemma_dec_enc_u32(dev);
                assert(data@.subrange(23, 27) =~= enc_u32(dev));
            }
            Ok(Metadata::Device(Device { common, dev }))
        },
    }
}

/// Architecture records decode to exactly the list that was encoded.
proof fn lemma_dec_arches_of_enc(data: Seq<u8>, pos: int, arches: Seq<ExecutableArch>)
    requires
        0 <= pos,
        pos + 16 * arches.len() <= data.len(),
        data.subrange(pos, pos + 16 * arches.len()) == enc_list(
            arches,
            |a: ExecutableArch| a.enc(),
        ),
    ensures
        dec_arches(data, pos, arches.len() as int) == Some(arches),
    decreases arches.len(),
{
    if arches.len() == 0 {
        assert(dec_arches(data, pos, 0) == Some(Seq::<ExecutableArch>::empty()));
        assert(arches =~= Seq::<ExecutableArch>::empty());
    } else {
        let a0 = arches[0];
        lemma_enc_arch_list_len(arches);
        lemma_enc_arch_list_len(arches.drop_first());
        assert(enc_list(arches, |a: ExecutableArch| a.enc()) == a0.enc() + enc_list(
            arches.drop_first(),
            |a: ExecutableArch| a.enc(),
        ));
        assert(a0.enc().len() == 16);
        assert(data.subrange(pos, pos + 16) =~= a0.enc());
        assert(data.subrange(pos, pos + 4) =~= data.subrange(pos, pos + 16).subrange(0, 4));
        assert(data.subrange(pos + 4, pos + 8) =~= data.subrange(pos, pos + 16).subrange(4, 8));
        assert(data.subrange(pos + 8, pos + 12) =~= data.subrange(pos, pos + 16).subrange(8, 12));
        assert(data.subrange(pos + 12, pos + 16) =~= data.subrange(pos, pos + 16).subrange(
            12,
            16,
        ));
        assert(a0.enc().subrange(0, 4) =~= enc_u32(a0.cpu_type));
        assert(a0.enc().subrange(4, 8) =~= enc_u32(a0.cpu_sub_type));
        assert(a0.enc().subrange(8, 12) =~= enc_u32(a0.size));
        assert(a0.enc().subrange(12, 16) =~= enc_u32(a0.checksum));
        lemma_dec_enc_u32(a0.cpu_type);
        lemma_dec_enc_u32(a0.cpu_sub_type);
        lemma_dec_enc_u32(a0.size);
        lemma_dec_enc_u32(a0.checksum);
        let whole = data.subrange(pos, pos + 16 * arches.len());
        assert(whole.subrange(16, whole.len() as int) =~= enc_list(
            arches.drop_first(),
            |a: ExecutableArch| a.enc(),
        ));
        assert(data.subrange(pos + 16, pos + 16 + 16 * (arches.drop_first().len() as int))
            =~= whole.subrange(16, whole.len() as int));
        lemma_dec_arches_of_enc(data, pos + 16, arches.drop_first());
        assert(seq![a0] + arches.drop_first() =~= arches);
    }
}

/// Writing a well-formed record and decoding the bytes gives the record
/// back, except that the stored size field keeps only the low 32 bits;
/// the 64-bit size table restores the rest, so a size above `u32::MAX`
/// survives the round trip through that table.
#[verifier::rlimit(100)]
#[verifier::spinoff_prover]
pub proof fn lemma_metadata_roundtrip(m: MetadataView)
    requires
        m.wf(),
    ensures
        dec_metadata(enc_metadata(m)) == Some(m.with_size((m.size() as u32) as u64)),
        m.size() <= u32::MAX ==> dec_metadata(enc_metadata(m)) == Some(m),
{
    let data = enc_metadata(m);
    let code = entry_type_code(m.entry_type());
    let flags = m.flags();
    assert(data.subrange(0, 1) =~= enc_u8(code));
    assert(data[0] == code);
    assert(data.subrange(2, 4) =~= enc_u16(flags));
    lemma_dec_enc_u16(flags);
    assert(spec_entry_type(code) == Some(m.entry_type()));
    match m {
        MetadataView::Entry { entry_type } => {
            assert(((0u16 & 0xf) << 12) | (0u16 & 0xf) == 0u16) by (bit_vector);
            assert(flags == 0);
            assert(0u16 & 0xf == 0u16) by (bit_vector);
            assert(spec_is_path_only(0u16));
        },
        _ => {
            let bt: u16 = match m.binary_type() {
                Some(t) => binary_type_code(t) as u16,
                None => 0u16,
            };
            assert(bt <= 2);
            assert(0xfu16 & 0xf == 0xfu16) by (bit_vector);
            assert(flags == ((bt & 0xf) << 12) | (0xfu16 & 0xf));
            assert(flags == ((bt & 0xf) << 12) | 0xf);
            assert(flags & 0xf == 0xf && (flags >> 12) & 0xf == bt) by (bit_vector)
                requires
                    flags == ((bt & 0xf) << 12) | 0xfu16,
                    bt <= 2,
            ;
            assert(!spec_is_path_only(flags));
            let c = m.common();
            assert(data.subrange(4, 6) =~= enc_u16(c.mode));
            assert(data.subrange(6, 10) =~= enc_u32(c.uid));
            assert(data.subrange(10, 14) =~= enc_u32(c.gid));
            assert(data.subrange(14, 18) =~= enc_u32(c.mtime));
            assert(data.subrange(18, 22) =~= enc_u32(c.size as u32));
            lemma_dec_enc_u16(c.mode);
            lemma_dec_enc_u32(c.uid);
            lemma_dec_enc_u32(c.gid);
            lemma_dec_enc_u32(c.mtime);
            lemma_dec_enc_u32(c.size as u32);
            let c2 = Common { size: (c.size as u32) as u64, ..c };
            assert(dec_common(data, 4) == c2);
            match m {
                MetadataView::File { common, checksum } => {
                    assert(spec_binary_type(flags) is None);
                    assert(data.subrange(23, 27) =~= enc_u32(checksum));
                    lemma_dec_enc_u32(checksum);
                    assert(dec_metadata(data) == Some(
                        MetadataView::File { common: c2, checksum },
                    ));
                },
                MetadataView::Executable { common, checksum, arches, is_fat } => {
                    assert(spec_binary_type(flags) == Some(
                        if is_fat {
                            BinaryType::Fat
                        } else {
                            BinaryType::Mach
                        },
                    ));
                    lemma_enc_arch_list_len(arches);
                    assert(data.subrange(23, 27) =~= enc_u32(checksum));
                    lemma_dec_enc_u32(checksum);
                    assert(data.subrange(28, 32) =~= enc_u32(arches.len() as u32));
                    lemma_dec_enc_u32(arches.len() as u32);
                    assert(data.subrange(32, 32 + 16 * (arches.len() as int)) =~= enc_list(
                        arches,
                        |a: ExecutableArch| a.enc(),
                    ));
                    lemma_dec_arches_of_enc(data, 32, arches);
                    assert(dec_metadata(data) == Some(
                        MetadataView::Executable { common: c2, checksum, arches, is_fat },
                    ));
                },
                MetadataView::Directory { common } => {
                    assert(dec_metadata(data) == Some(MetadataView::Directory { common: c2 }));
                },
                MetadataView::Link { common, checksum, target } => {
                    assert(data.subrange(23, 27) =~= enc_u32(checksum));
                    lemma_dec_enc_u32(checksum);
                    assert(data.subrange(27, 31) =~= enc_u32((target.len() + 1) as u32));
                    lemma_dec_enc_u32((target.len() + 1) as u32);
                    let tlen = target.len() as int + 1;
                    let raw = data.subrange(31, 31 + tlen);
                    assert(raw =~= target + enc_u8(0));
                    assert(raw.last() == 0);
                    assert(raw.drop_last() =~= target);
                    assert(dec_metadata(data) == Some(
                        MetadataView::Link { common: c2, checksum, target },
                    ));
                },
                MetadataView::Device { common, dev } => {
                    assert(data.subrange(23, 27) =~= enc_u32(dev));
                    lemma_dec_enc_u32(dev);
                    assert(dec_metadata(data) == Some(MetadataView::Device { common: c2, dev }));
                },
                MetadataView::Entry { .. } => {},
            }
        },
    }
}

} // verus!
