use vstd::prelude::*;

verus! {

/// Failures of the database catalog.
#[derive(Debug, Clone, PartialEq, Eq)]
pub enum FsDatabaseError {
    /// The repository for a collection could not be created.
    CollectionRespositoryError { path: String },
    /// No repository was registered under the collection's name.
    CollectionRepoisitoryMissingError { path: String },
    /// The registered repository has another key or model type than asked for.
    CollectionRepoisitoryDowncastError { path: String },
}

/// Failures of the file system behind a repository.
#[derive(Debug, Clone, PartialEq, Eq)]
pub enum FsRepositoryError {
    DirectoryCreation { path: String },
    FileCreation { path: String },
    FileDeletion { path: String },
}

/// Failures when decoding a record frame.
#[derive(Debug, Clone, Copy, PartialEq, Eq, Structural)]
pub enum RecordHeaderError {
    /// The frame does not start with the magic number.
    InvalidMagic { magic: u32 },
    /// The frame was written by a newer format version.
    UnsupportedVersion { version: u8 },
    /// The header announces a length shorter than the header itself.
    InvalidLength { length: u64 },
    /// The log ends before the frame that starts at `offset` does.
    Truncated { offset: u64 },
    /// The checksum stored in the header differs from the payload's.
    CorruptedData { offset: u64, expected: u32, actual: u32 },
}

} // verus!
