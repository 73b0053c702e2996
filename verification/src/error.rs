//! The error taxonomy shared by the pager, the write-ahead log and the engine.

use vstd::prelude::*;

verus! {

/// Everything that can go wrong inside the storage engine.
///
/// Errors raised by the block device or the log transport are carried as
/// text: the engine only ever needs to tell their kind apart.
#[derive(Debug)]
pub enum IronCladError {
    /// The page is not resident in the buffer pool, or the device has no such page.
    PageNotFound { page_id: u64 },
    /// Every resident page is pinned, so no frame can be freed.
    BufferPoolExhausted,
    /// The checksum stored in a page differs from the one computed over its payload.
    ChecksumMismatch { page_id: u64, expected: u32, actual: u32 },
    /// A page does not have the layout of a record.
    InvalidPageFormat { reason: String },
    /// The page's pin count cannot grow any further.
    PagePinned { page_id: u64 },
    /// A key is longer than `max` bytes.
    KeyTooLarge { size: usize, max: usize },
    /// A value does not fit into the page beside its key.
    ValueTooLarge { size: usize, max: usize },
    /// The blob storage account reported a failure.
    AzureStorageError(String),
    /// The log holds a record that cannot be applied.
    WalCorruption { lsn: u64 },
    /// An input or output operation failed.
    IoError(String),
    /// A record could not be serialized or parsed.
    SerializationError(String),
    /// Bytes that should be text are not valid UTF-8.
    Utf8Error(String),
    /// The storage client reported a failure.
    AzureError(String),
    /// A value handed to the engine breaks one of its configuration rules.
    ConfigError(String),
}

/// The abstract value of an error: its kind, its numbers and its text.
pub enum Fault {
    PageNotFound { page_id: u64 },
    BufferPoolExhausted,
    ChecksumMismatch { page_id: u64, expected: u32, actual: u32 },
    InvalidPageFormat { reason: Seq<char> },
    PagePinned { page_id: u64 },
    KeyTooLarge { size: usize, max: usize },
    ValueTooLarge { size: usize, max: usize },
    AzureStorageError(Seq<char>),
    WalCorruption { lsn: u64 },
    IoError(Seq<char>),
    SerializationError(Seq<char>),
    Utf8Error(Seq<char>),
    AzureError(Seq<char>),
    ConfigError(Seq<char>),
}

impl View for IronCladError {
    type V = Fault;

    open spec fn view(&self) -> Fault {
        match self {
            IronCladError::PageNotFound { page_id } => Fault::PageNotFound { page_id: *page_id },
            IronCladError::BufferPoolExhausted => Fault::BufferPoolExhausted,
            IronCladError::ChecksumMismatch { page_id, expected, actual } => {
                Fault::ChecksumMismatch { page_id: *page_id, expected: *expected, actual: *actual }
            },
            IronCladError::InvalidPageFormat { reason } => Fault::InvalidPageFormat {
                reason: reason@,
            },
            IronCladError::PagePinned { page_id } => Fault::PagePinned { page_id: *page_id },
            IronCladError::KeyTooLarge { size, max } => Fault::KeyTooLarge {
                size: *size,
                max: *max,
            },
            IronCladError::ValueTooLarge { size, max } => Fault::ValueTooLarge {
                size: *size,
                max: *max,
            },
            IronCladError::AzureStorageError(text) => Fault::AzureStorageError(text@),
            IronCladError::WalCorruption { lsn } => Fault::WalCorruption { lsn: *lsn },
            IronCladError::IoError(text) => Fault::IoError(text@),
            IronCladError::SerializationError(text) => Fault::SerializationError(text@),
            IronCladError::Utf8Error(text) => Fault::Utf8Error(text@),
            IronCladError::AzureError(text) => Fault::AzureError(text@),
            IronCladError::ConfigError(text) => Fault::ConfigError(text@),
        }
    }
}

impl Fault {
    /// True for the two kinds of read failure that mean "there is no such
    /// page" rather than "the device is broken".
    pub open spec fn is_benign_absence(self) -> bool {
        self is PageNotFound || self is InvalidPageFormat
    }
}

impl IronCladError {
    /// True for the two kinds of read failure that mean "there is no such
    /// page" rather than "the device is broken".
    pub open spec fn is_benign_absence(self) -> bool {
        self@.is_benign_absence()
    }

    /// Tells whether a failed page read stands for an absent page.
    pub fn benign_absence(&self) -> (b: bool)
        ensures
            b == self.is_benign_absence(),
    {
        match self {
            IronCladError::PageNotFound { .. } => true,
            IronCladError::InvalidPageFormat { .. } => true,
            _ => false,
        }
    }
}

} // verus!
