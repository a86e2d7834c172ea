//! Reading and writing Apple bill-of-materials (BOM) files.
//!
//! A BOM file is a block store: a flat array of `(offset, len)` byte ranges
//! addressed by dense indices, plus a small table of named entry points.
//! Receipts store their file lists inside the store as paged trees.

pub mod blocks;
pub mod bom;
pub mod error;
pub mod named_blocks;
pub mod receipt;
pub mod tree;
pub mod io;

pub use crate::blocks::Block;
pub use crate::blocks::Blocks;
pub use crate::bom::Bom;
pub use crate::error::Error;
pub use crate::named_blocks::NamedBlocks;
pub use crate::tree::TreeNode;
pub use crate::io::ByteWriter;
