//! The write- and read-wide context that gathers the side tables.

use vstd::prelude::*;

verus! {

use crate::receipt::file_sizes::FileSizes64;
use crate::receipt::hard_links::HardLinks;

/// File-wide data threaded through every block write and read.
///
/// Holds the 64-bit file sizes and the hard-link names; the same
/// instance must see a whole write or a whole read for the side tables
/// to line up with the metadata blocks.
#[derive(Debug)]
pub struct Context {
    /// 64-bit file sizes by metadata block index.
    pub file_sizes: FileSizes64,
    /// Names recorded against metadata block indices.
    pub hard_links: HardLinks,
    /// The key block index that the path component being written got;
    /// the following name write records itself against it.
    pub current_key_block: Option<u32>,
}

impl Context {
    /// Create an empty context.
    pub fn new() -> (r: Self)
        ensures
            r.file_sizes.entries() == Seq::<(u32, u64)>::empty(),
            r.hard_links.entries() == Seq::<(u32, Seq<Seq<u8>>)>::empty(),
            r.file_sizes.wf(),
            r.hard_links.wf(),
    {
        Context {
            file_sizes: FileSizes64::new(),
            hard_links: HardLinks::new(),
            current_key_block: None,
        }
    }
}

} // verus!
