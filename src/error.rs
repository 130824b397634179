use vstd::prelude::*;

verus! {

/// The ways an operation of the store can fail.
#[derive(Debug, PartialEq, Eq, Structural)]
pub enum StreamError {
    /// Another writer holds the item's metadata lock.
    MetadataLocked,
    /// The data of the requested version is held by a writer that never committed.
    DataLocked,
    /// The requested version is not strictly newer than the committed one.
    StaleVersion { requested: u64, committed: u64 },
    /// The text of the metadata's `<version>` element could not be read.
    MalformedMetadata,
    /// No live object exists for the requested item and version.
    NotFound,
    /// A write or a commit was asked of a stream opened for reading.
    NotWriter,
    /// A read was asked of a stream opened for writing.
    NotReader,
}

} // verus!
