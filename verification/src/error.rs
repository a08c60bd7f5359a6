//! The failures that an object-store operation can end in.

use vstd::prelude::*;
use vstd::string::StringExecFns;

verus! {

/// How a tree payload departs from the `<mode> <name>\0<digest>` framing.
#[derive(Debug, Clone, Copy, PartialEq, Eq, Structural)]
pub enum TreeFault {
    /// No space closes the mode field.
    MissingSpace,
    /// No NUL byte closes the name.
    MissingNul,
    /// Fewer than 20 bytes are left where a digest is expected.
    TruncatedDigest,
}

/// Why an operation on the object database failed.
#[derive(Debug, Clone, Copy, PartialEq, Eq, Structural)]
pub enum StoreError {
    /// The object-database directory does not exist.
    NotARepository,
    /// No object is stored under the requested digest.
    NotFound,
    /// The string is not made of 40 hexadecimal characters.
    InvalidDigest,
    /// The stored bytes are not a valid compressed stream.
    CorruptObject,
    /// A tree payload breaks the entry framing.
    MalformedTree(TreeFault),
    /// The object is not a tree.
    NotATree,
    /// The object's header names another kind than the one asked for.
    WrongKind,
    /// The compressor or the host reported a failure of its own.
    Io,
}

impl StoreError {
    /// The text shown to the user for this failure.
    pub open spec fn spec_message(self) -> Seq<char> {
        match self {
            StoreError::NotARepository => "not a git repository (missing .git/objects)"@,
            StoreError::NotFound => "object not found"@,
            StoreError::InvalidDigest => "invalid object hash"@,
            StoreError::CorruptObject => "corrupt object (bad compressed stream)"@,
            StoreError::MalformedTree(TreeFault::MissingSpace) => "invalid tree entry (missing space)"@,
            StoreError::MalformedTree(TreeFault::MissingNul) => "invalid tree entry (missing NUL)"@,
            StoreError::MalformedTree(TreeFault::TruncatedDigest) => "invalid tree entry (truncated sha)"@,
            StoreError::NotATree => "object is not a tree"@,
            StoreError::WrongKind => "object is not of the expected kind"@,
            StoreError::Io => "i/o failure"@,
        }
    }

    /// The text shown to the user for this failure.
    pub fn message(&self) -> (text: String)
        ensures
            text@ == self.spec_message(),
    {
        let literal = match self {
            StoreError::NotARepository => "not a git repository (missing .git/objects)",
            StoreError::NotFound => "object not found",
            StoreError::InvalidDigest => "invalid object hash",
            StoreError::CorruptObject => "corrupt object (bad compressed stream)",
            StoreError::MalformedTree(TreeFault::MissingSpace) => "invalid tree entry (missing space)",
            StoreError::MalformedTree(TreeFault::MissingNul) => "invalid tree entry (missing NUL)",
            StoreError::MalformedTree(TreeFault::TruncatedDigest) => "invalid tree entry (truncated sha)",
            StoreError::NotATree => "object is not a tree",
            StoreError::WrongKind => "object is not of the expected kind",
            StoreError::Io => "i/o failure",
        };
        String::from_str(literal)
    }
}

} // verus!
