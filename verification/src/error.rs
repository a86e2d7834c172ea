use vstd::prelude::*;

verus! {

/// Errors surfaced by the BOM core.
#[derive(Clone, Copy, Debug, PartialEq, Eq, Structural)]
pub enum Error {
    /// The file does not start with the `BOMStore` magic.
    NotABomStore,
    /// A header or tree version other than 1.
    UnsupportedVersion,
    /// The input ends before a declared structure does.
    Truncated,
    /// A block index outside the block-index table.
    InvalidBlockIndex,
    /// A malformed name or field (bad NUL placement, unknown tag).
    InvalidData,
    /// A block offset or length does not fit in 32 bits.
    FileTooLarge,
    /// A tree node would hold more entries than its counter can express.
    TooManyEntries,
    /// A parent-pointer chain in the path graph revisits a component.
    PathLoop,
}

impl Error {
    /// A short description, for callers that print errors.
    pub fn message(&self) -> (r: &'static str)
    {
        match self {
            Error::NotABomStore => "not a bom store",
            Error::UnsupportedVersion => "unsupported version",
            Error::Truncated => "unexpected end of file",
            Error::InvalidBlockIndex => "invalid block index",
            Error::InvalidData => "invalid data",
            Error::FileTooLarge => "the file is too large",
            Error::TooManyEntries => "too many entries",
            Error::PathLoop => "loop",
        }
    }
}

} // verus!
