//! File types as the mode's high nibble and entry types as stored tags.

use vstd::prelude::*;

verus! {

use crate::error::Error;

/// The file type carried in the high four bits of a mode word.
#[derive(Clone, Copy, Debug, PartialEq, Eq, Hash, Structural)]
pub enum FileType {
    /// Symbolic link.
    Symlink,
    /// Regular file.
    Regular,
    /// Block device.
    BlockDevice,
    /// A directory.
    Directory,
    /// Character device.
    CharDevice,
}

/// The mode bits that stand for each file type.
pub open spec fn file_type_code(t: FileType) -> u8 {
    match t {
        FileType::Symlink => 0o12u8,
        FileType::Regular => 0o10u8,
        FileType::BlockDevice => 0o06u8,
        FileType::Directory => 0o04u8,
        FileType::CharDevice => 0o02u8,
    }
}

/// The file type a mode word denotes, if any.
pub open spec fn spec_file_type(mode: u16) -> Option<FileType> {
    let c = mode >> 12;
    if c == 0o12 {
        Some(FileType::Symlink)
    } else if c == 0o10 {
        Some(FileType::Regular)
    } else if c == 0o06 {
        Some(FileType::BlockDevice)
    } else if c == 0o04 {
        Some(FileType::Directory)
    } else if c == 0o02 {
        Some(FileType::CharDevice)
    } else {
        None
    }
}

/// The high four bits of a mode word.
pub fn mode_to_file_type(mode: u16) -> (r: u8)
    ensures
        r == mode >> 12,
{
    assert(mode >> 12 <= 0xf) by (bit_vector);
    (mode >> 12) as u8
}

impl FileType {
    /// Get the file type from a file mode.
    pub fn new(mode: u16) -> (r: Result<Self, Error>)
        ensures
            match r {
                Ok(t) => spec_file_type(mode) == Some(t),
                Err(e) => e == Error::InvalidData && spec_file_type(mode) is None,
            },
    {
        let code = mode >> 12;
        if code == 0o12 {
            Ok(FileType::Symlink)
        } else if code == 0o10 {
            Ok(FileType::Regular)
        } else if code == 0o06 {
            Ok(FileType::BlockDevice)
        } else if code == 0o04 {
            Ok(FileType::Directory)
        } else if code == 0o02 {
            Ok(FileType::CharDevice)
        } else {
            Err(Error::InvalidData)
        }
    }

    /// The entry type stored for this file type.
    pub fn to_entry_type(self) -> (r: EntryType)
        ensures
            r == spec_to_entry_type(self),
    {
        match self {
            FileType::Regular => EntryType::File,
            FileType::Directory => EntryType::Directory,
            FileType::Symlink => EntryType::Link,
            FileType::BlockDevice => EntryType::Device,
            FileType::CharDevice => EntryType::Device,
        }
    }

    /// This type's bits in a mode word.
    pub fn to_mode_bits(self) -> (r: u16)
        ensures
            r == (file_type_code(self) as u16) << 12,
    {
        (match self {
            FileType::Symlink => 0o12u16,
            FileType::Regular => 0o10u16,
            FileType::BlockDevice => 0o06u16,
            FileType::Directory => 0o04u16,
            FileType::CharDevice => 0o02u16,
        }) << 12
    }

    /// `mode` with its type bits replaced by this type's.
    pub fn set(self, mode: u16) -> (r: u16)
        ensures
            r == (mode & 0x0fff) | ((file_type_code(self) as u16) << 12),
    {
        (mode & 0x0fff) | self.to_mode_bits()
    }
}

/// The entry type a file type maps to.
pub open spec fn spec_to_entry_type(t: FileType) -> EntryType {
    match t {
        FileType::Regular => EntryType::File,
        FileType::Directory => EntryType::Directory,
        FileType::Symlink => EntryType::Link,
        FileType::BlockDevice => EntryType::Device,
        FileType::CharDevice => EntryType::Device,
    }
}

/// The first byte of every metadata record.
#[derive(Clone, Copy, Debug, PartialEq, Eq, Hash, Structural)]
pub enum EntryType {
    File,
    Directory,
    Link,
    Device,
}

/// The stored tag of an entry type.
pub open spec fn entry_type_code(t: EntryType) -> u8 {
    match t {
        EntryType::File => 1u8,
        EntryType::Directory => 2u8,
        EntryType::Link => 3u8,
        EntryType::Device => 4u8,
    }
}

/// The entry type a stored tag denotes, if any.
pub open spec fn spec_entry_type(tag: u8) -> Option<EntryType> {
    if tag == 1 {
        Some(EntryType::File)
    } else if tag == 2 {
        Some(EntryType::Directory)
    } else if tag == 3 {
        Some(EntryType::Link)
    } else if tag == 4 {
        Some(EntryType::Device)
    } else {
        None
    }
}

impl EntryType {
    /// The entry type for a stored tag.
    pub fn from_code(tag: u8) -> (r: Result<Self, Error>)
        ensures
            match r {
                Ok(t) => spec_entry_type(tag) == Some(t),
                Err(e) => e == Error::InvalidData && spec_entry_type(tag) is None,
            },
    {
        if tag == 1 {
            Ok(EntryType::File)
        } else if tag == 2 {
            Ok(EntryType::Directory)
        } else if tag == 3 {
            Ok(EntryType::Link)
        } else if tag == 4 {
            Ok(EntryType::Device)
        } else {
            Err(Error::InvalidData)
        }
    }

    /// The stored tag of this entry type.
    pub fn code(self) -> (r: u8)
        ensures
            r == entry_type_code(self),
    {
        match self {
            EntryType::File => 1,
            EntryType::Directory => 2,
            EntryType::Link => 3,
            EntryType::Device => 4,
        }
    }
}

} // verus!
