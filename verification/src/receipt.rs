//! Reading and writing receipt files: the metadata codec, the
//! path-component vector, the side tables, and the facade around them.

pub mod bom;
pub mod bom_info;
pub mod context;
pub mod crc;
pub mod dev;
pub mod fat;
pub mod file_sizes;
pub mod file_type;
pub mod hard_links;
pub mod mach;
pub mod metadata;
pub mod path_component;
pub mod ptr;
pub mod virtual_paths;

pub use self::bom::Receipt;
pub use self::bom::ReceiptBuilder;
pub use self::bom_info::BomInfo;
pub use self::bom_info::BomInfoEntry;
pub use self::context::Context;
pub use self::crc::file_checksum;
pub use self::file_sizes::FileSizes64;
pub use self::hard_links::HardLinks;
pub use self::virtual_paths::VirtualPathTree;
pub use self::fat::FatArch;
pub use self::fat::FatBinary;
pub use self::mach::MachObject;
pub use self::path_component::PathComponent;
pub use self::path_component::PathComponentVec;
pub use self::ptr::Ptr;
pub use self::dev::bom_dev_to_libc_dev;
pub use self::dev::libc_dev_to_bom_dev;
pub use self::file_type::EntryType;
pub use self::file_type::FileType;
pub use self::metadata::BinaryType;
pub use self::metadata::Common;
pub use self::metadata::ExecutableArch;
pub use self::metadata::Device;
pub use self::metadata::Directory;
pub use self::metadata::Entry;
pub use self::metadata::Executable;
pub use self::metadata::File;
pub use self::metadata::Link;
pub use self::metadata::Metadata;
pub use self::metadata::MetadataView;
