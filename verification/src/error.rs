//! The ways in which an operation on a container can fail.

use vstd::prelude::*;

verus! {

/// Why an operation did not produce a result.
#[derive(Clone, Copy, Debug, PartialEq, Eq, Structural)]
pub enum Error {
    /// The bytes do not form a box tree: a header is truncated, a size runs
    /// past its enclosing bound, or an offset table disagrees with its count.
    MalformedContainer,
    /// The container carries no store (or no reference) to read or remove.
    NotFound,
    /// The replacement does not fit the space the existing store occupies.
    PatchSizeMismatch,
    /// The asset type, or the representation asked for, is not one that the
    /// adapter handles.
    UnsupportedAssetType,
}

impl Error {
    /// What the error says, in words.
    pub open spec fn text(self) -> Seq<char> {
        match self {
            Error::MalformedContainer => "malformed container"@,
            Error::NotFound => "no store found"@,
            Error::PatchSizeMismatch => "store does not fit the reserved space"@,
            Error::UnsupportedAssetType => "unsupported asset type"@,
        }
    }

    /// What the error says, in words.
    pub fn message(&self) -> (s: &'static str)
        ensures
            s@ == self.text(),
    {
        match self {
            Error::MalformedContainer => "malformed container",
            Error::NotFound => "no store found",
            Error::PatchSizeMismatch => "store does not fit the reserved space",
            Error::UnsupportedAssetType => "unsupported asset type",
        }
    }
}

} // verus!
