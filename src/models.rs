use vstd::prelude::*;

verus! {

/// Storage class of an object.
#[derive(Debug, Clone, Copy, PartialEq, Eq, Structural)]
pub enum StorageClass {
    Hot,
    Warm,
    Cold,
    ColdPending,
}

/// Progress of a restore request.
#[derive(Debug, Clone, Copy, PartialEq, Eq, Structural)]
pub enum RestoreStatus {
    Pending,
    InProgress,
    Completed,
    Expired,
    Failed,
}

/// Status of a tape cartridge as observed from the driver.
#[derive(Debug, Clone, Copy, PartialEq, Eq, Structural)]
pub enum TapeStatus {
    Online,
    Offline,
    Unknown,
    Error,
}

/// Metadata record of one object. Times are seconds since the epoch and
/// identifiers of bundles and tasks are 128-bit UUID values.
#[derive(Debug, Clone)]
pub struct ObjectMetadata {
    pub bucket: String,
    pub object_key: String,
    pub version: Option<String>,
    pub storage_class: StorageClass,
    pub archive_id: Option<u128>,
    pub tape_id: Option<String>,
    pub tape_set: Option<Vec<String>>,
    pub checksum: String,
    pub size: u64,
    pub restore_status: Option<RestoreStatus>,
    pub restore_expire_at: Option<u64>,
    pub created_at: u64,
    pub updated_at: u64,
}

/// A group of objects written contiguously to one tape: member `i` is
/// `buckets[i]`/`object_keys[i]`, of `sizes[i]` bytes, and the members follow
/// each other from byte `offset` of the tape on. `checksum` is the checksum of
/// the `total_size` bytes written there.
#[derive(Debug, Clone)]
pub struct ArchiveBundle {
    pub id: u128,
    pub tape_id: String,
    pub buckets: Vec<String>,
    pub object_keys: Vec<String>,
    pub sizes: Vec<u64>,
    pub offset: u64,
    pub total_size: u64,
    pub checksum: u64,
    pub created_at: u64,
    pub status: ArchiveBundleStatus,
}

#[derive(Debug, Clone, Copy, PartialEq, Eq, Structural)]
pub enum ArchiveBundleStatus {
    Pending,
    Writing,
    Completed,
    Failed,
}

/// What is known of one tape cartridge.
#[derive(Debug, Clone)]
pub struct TapeInfo {
    pub id: String,
    pub format: String,
    pub status: TapeStatus,
    pub location: Option<String>,
    pub capacity_bytes: Option<u64>,
    pub used_bytes: Option<u64>,
    pub archive_bundles: Vec<u128>,
    pub last_verified_at: Option<u64>,
}

/// A request to stage one cold object back into the restore cache.
#[derive(Debug, Clone)]
pub struct RecallTask {
    pub id: u128,
    pub object_key: String,
    pub bucket: String,
    pub archive_id: u128,
    pub tape_id: String,
    pub status: RestoreStatus,
    pub priority: u32,
    pub days: u32,
    pub created_at: u64,
    pub started_at: Option<u64>,
    pub completed_at: Option<u64>,
    pub error: Option<String>,
}

/// A request to write a set of objects to tape as one bundle.
#[derive(Debug, Clone)]
pub struct ArchiveTask {
    pub id: u128,
    pub object_keys: Vec<String>,
    pub archive_bundle_id: u128,
    pub status: ArchiveTaskStatus,
    pub created_at: u64,
    pub started_at: Option<u64>,
    pub completed_at: Option<u64>,
}

#[derive(Debug, Clone, Copy, PartialEq, Eq, Structural)]
pub enum ArchiveTaskStatus {
    Pending,
    InProgress,
    Completed,
    Failed,
}

/// A copy of a recall task.
pub fn copy_task(t: &RecallTask) -> (r: RecallTask)
    ensures
        r == *t,
{
    RecallTask {
        id: t.id,
        object_key: t.object_key.clone(),
        bucket: t.bucket.clone(),
        archive_id: t.archive_id,
        tape_id: t.tape_id.clone(),
        status: t.status,
        priority: t.priority,
        days: t.days,
        created_at: t.created_at,
        started_at: t.started_at,
        completed_at: t.completed_at,
        error: match &t.error {
            None => None,
            Some(e) => Some(e.clone()),
        },
    }
}

/// Relies on uuid::Uuid::new_v4: a fresh random identifier. Nothing is known
/// of its value.
#[verifier::external_body]
pub(crate) fn new_id() -> (r: u128) {
    uuid::Uuid::new_v4().as_u128()
}

} // verus!
