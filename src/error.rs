//! Errors of the storage engine.
use vstd::prelude::*;

verus! {

/// Why a storage operation failed.
#[derive(Debug, Clone, Copy, PartialEq, Eq, Structural)]
pub enum StorageError {
    /// The file length is not a multiple of the page size, or a page's
    /// header does not describe a valid layout.
    CorruptFile,
    /// A page has no room for a document.
    PageFull,
    /// The slot id is beyond the page's slot directory.
    SlotNotFound,
    /// The slot was deleted.
    Tombstoned,
    /// The page id is beyond the file's page count.
    OutOfRange,
    /// Every frame of the buffer pool is pinned.
    PoolExhausted,
    /// The document does not fit even in an empty page.
    DocumentTooLarge,
}

} // verus!
