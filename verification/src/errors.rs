//! Error types of the container engine.
//!
//! Each variant names the phase that failed; the contracts of the functions
//! that return them say exactly which inputs produce which variant.

use vstd::prelude::*;

verus! {

/// Creating the destination archive failed.
#[derive(Debug, Clone, Copy, PartialEq, Eq, Structural)]
pub enum CreateArchiveError {
    DirCreation,
    ArchiveCreation,
}

/// Appending one entry to a container failed.
#[derive(Debug, Clone, Copy, PartialEq, Eq, Structural)]
pub enum InsertionError {
    /// The source file could not be opened.
    FileOpen,
    /// The writer's counter reached the maximum entry count; the payload is
    /// that maximum.
    CbzFull(usize),
    /// The archive rejected the new entry.
    FileCreation,
    /// Writing the entry's bytes failed.
    FileWrite,
    /// Draining the source byte stream failed.
    ReaderConsumption,
    /// Re-encoding the page to JPEG failed.
    ImageEncode,
    /// The bytes do not classify as image content.
    InvalidFormat,
}

/// Sealing the archive's structural metadata failed.
#[derive(Debug, Clone, Copy, PartialEq, Eq, Structural)]
pub struct ArchiveFinishError;

/// Building the spine of an opened container failed.
#[derive(Debug, Clone, Copy, PartialEq, Eq, Structural)]
pub enum SpineCreationError {
    /// An entry named by the archive's directory could not be opened.
    ZipByName,
    /// An entry's content prefix could not be read.
    ZipFileRead,
}

/// Opening a byte source as a container failed.
#[derive(Debug, Clone, Copy, PartialEq, Eq, Structural)]
pub enum ReaderCreationError {
    /// The bytes are not a valid archive.
    ArchiveCreation,
    /// The archive opened but its spine could not be built.
    SpineCreation(SpineCreationError),
}

/// Loading the page under the cursor failed.
#[derive(Debug, Clone, Copy, PartialEq, Eq, Structural)]
pub enum LoadImageError {
    /// The cursor does not name an entry; the payload is the cursor value.
    ZipByIndex(usize),
    /// The entry has gone missing from the archive.
    ZipByName,
    /// The entry's bytes could not be read.
    ZipFileRead,
    /// The entry's bytes do not decode as an image.
    ImageDecode,
}

} // verus!
