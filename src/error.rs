use vstd::prelude::*;

verus! {

/// Errors surfaced by the library.
#[derive(Debug, Clone)]
pub enum Error {
    S3(String),
    Metadata(String),
    Scheduler(String),
    Tape(String),
    Cache(String),
    Notification(String),
    ObjectNotFound,
    InvalidObjectState(String),
    ConflictingState,
    TapeOffline(String),
    TapeIo,
    CacheIo,
    CacheTooSmall,
    MetadataUnavailable,
    Timeout,
    Cancelled,
    Internal(String),
}

pub type Result<T> = core::result::Result<T, Error>;

} // verus!
