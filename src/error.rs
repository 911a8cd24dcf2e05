use vstd::prelude::*;

verus! {

/// Errors of the archive format, of reading it and of building it.
#[derive(Debug, Clone, Copy, PartialEq, Eq, Structural)]
pub enum ZupError {
    /// The superblock's magic number is not the archive magic.
    BadMagic,
    /// The superblock names a format version other than the supported one.
    UnsupportedVersion,
    /// A range is larger than the per-read cap.
    RangeTooLarge,
    /// A range lies (partly) outside the archive's data region.
    RangeOutOfBounds,
    /// A directory entry name is not valid UTF-8.
    BadName,
    /// A directory listing ends in the middle of an entry.
    TruncatedListing,
    /// A node is compressed but the archive holds no dictionary.
    MissingDictionary,
    /// A compressed node does not decode.
    BadCompressedData,
    /// The archive is shorter than a superblock.
    TruncatedArchive,
    /// A path segment names no entry.
    NotFound,
    /// A file was asked for, a directory was found.
    IsADirectory,
    /// A path goes through a file.
    NotADirectory,
    /// The input tree holds no file after filtering.
    EmptyTree,
    /// A directory entry name is longer than 255 bytes.
    NameTooLong,
    /// A directory entry name is empty or holds `/` or NUL.
    InvalidName,
    /// Directory entries are not strictly increasing by name.
    UnsortedListing,
    /// Two entries of one directory have the same name.
    DuplicateName,
}

impl ZupError {
    /// A short description of the error.
    pub fn message(&self) -> (r: &'static str) {
        match self {
            ZupError::BadMagic => "bad magic",
            ZupError::UnsupportedVersion => "unsupported version",
            ZupError::RangeTooLarge => "range too large",
            ZupError::RangeOutOfBounds => "range out of bounds",
            ZupError::BadName => "invalid utf8 filename",
            ZupError::TruncatedListing => "truncated directory listing",
            ZupError::MissingDictionary => "node is compressed, but archive has no dictionary",
            ZupError::BadCompressedData => "corrupt compressed node",
            ZupError::TruncatedArchive => "archive shorter than a superblock",
            ZupError::NotFound => "not found",
            ZupError::IsADirectory => "is a directory, not a file",
            ZupError::NotADirectory => "is a file, not a directory",
            ZupError::EmptyTree => "input tree is empty",
            ZupError::NameTooLong => "name too long",
            ZupError::InvalidName => "invalid name",
            ZupError::UnsortedListing => "directory entries not sorted",
            ZupError::DuplicateName => "duplicate name in directory",
        }
    }
}

} // verus!
