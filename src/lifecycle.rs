use vstd::prelude::*;
use crate::models::{ObjectMetadata, RestoreStatus, StorageClass};

verus! {

/// The lifecycle position of an object: its storage class and its restore status.
/// `Restoring` is a cold object with a `Pending` or `InProgress` restore, and
/// `RestoreReady` is a cold object with a `Completed` restore.
#[derive(Debug, Clone, Copy, PartialEq, Eq, Structural)]
pub struct ObjectState {
    pub class: StorageClass,
    pub restore: Option<RestoreStatus>,
}

/// The events that move an object through its lifecycle, with the fields that
/// an event records on the object.
#[derive(Debug, Clone)]
pub enum Transition {
    Demote,
    ArchiveCommit { archive_id: u128, tape_id: String },
    ArchiveFail,
    RestoreRequest,
    Picked,
    RestoreOk { expire_at: u64 },
    RestoreFail,
    Expire,
    Clear,
}

pub open spec fn st(class: StorageClass, restore: Option<RestoreStatus>) -> ObjectState {
    ObjectState { class, restore }
}

/// A cold object whose restore window, if any, is not live: the states from
/// which a new restore may be requested.
pub open spec fn restorable(s: ObjectState) -> bool {
    s.class == StorageClass::Cold && (s.restore == None::<RestoreStatus> || s.restore
        == Some(RestoreStatus::Expired) || s.restore == Some(RestoreStatus::Failed))
}

/// The legal transitions: the state reached from `s` by `t`, or `None` where
/// the transition is rejected.
pub open spec fn next_state(s: ObjectState, t: Transition) -> Option<ObjectState> {
    match t {
        Transition::Demote => if s == st(StorageClass::Hot, None) {
            Some(st(StorageClass::ColdPending, None))
        } else {
            None
        },
        Transition::ArchiveCommit { .. } => if s == st(StorageClass::ColdPending, None) {
            Some(st(StorageClass::Cold, None))
        } else {
            None
        },
        Transition::ArchiveFail => if s == st(StorageClass::ColdPending, None) {
            Some(st(StorageClass::Hot, None))
        } else {
            None
        },
        Transition::RestoreRequest => if restorable(s) {
            Some(st(StorageClass::Cold, Some(RestoreStatus::Pending)))
        } else {
            None
        },
        Transition::Picked => if s == st(StorageClass::Cold, Some(RestoreStatus::Pending)) {
            Some(st(StorageClass::Cold, Some(RestoreStatus::InProgress)))
        } else {
            None
        },
        Transition::RestoreOk { .. } => if s == st(StorageClass::Cold, Some(RestoreStatus::InProgress)) {
            Some(st(StorageClass::Cold, Some(RestoreStatus::Completed)))
        } else {
            None
        },
        Transition::RestoreFail => if s == st(StorageClass::Cold, Some(RestoreStatus::InProgress)) {
            Some(st(StorageClass::Cold, Some(RestoreStatus::Failed)))
        } else {
            None
        },
        Transition::Expire => if s == st(StorageClass::Cold, Some(RestoreStatus::Completed)) {
            Some(st(StorageClass::Cold, Some(RestoreStatus::Expired)))
        } else {
            None
        },
        Transition::Clear => if s == st(StorageClass::Cold, Some(RestoreStatus::Expired)) {
            Some(st(StorageClass::Cold, None))
        } else {
            None
        },
    }
}

fn is_restorable(s: ObjectState) -> (r: bool)
    ensures
        r == restorable(s),
{
    s.class == StorageClass::Cold && match s.restore {
        None => true,
        Some(RestoreStatus::Expired) => true,
        Some(RestoreStatus::Failed) => true,
        _ => false,
    }
}

/// Applies `t` to `s`: the next state where the transition is legal, and
/// `None` where it is rejected.
pub fn apply_transition(s: ObjectState, t: &Transition) -> (r: Option<ObjectState>)
    ensures
        r == next_state(s, *t),
{
    let (from, to) = match t {
        Transition::Demote => (
            ObjectState { class: StorageClass::Hot, restore: None },
            ObjectState { class: StorageClass::ColdPending, restore: None },
        ),
        Transition::ArchiveCommit { .. } => (
            ObjectState { class: StorageClass::ColdPending, restore: None },
            ObjectState { class: StorageClass::Cold, restore: None },
        ),
        Transition::ArchiveFail => (
            ObjectState { class: StorageClass::ColdPending, restore: None },
            ObjectState { class: StorageClass::Hot, restore: None },
        ),
        Transition::RestoreRequest => {
            return if is_restorable(s) {
                Some(ObjectState { class: StorageClass::Cold, restore: Some(RestoreStatus::Pending) })
            } else {
                None
            };
        },
        Transition::Picked => (
            ObjectState { class: StorageClass::Cold, restore: Some(RestoreStatus::Pending) },
            ObjectState { class: StorageClass::Cold, restore: Some(RestoreStatus::InProgress) },
        ),
        Transition::RestoreOk { .. } => (
            ObjectState { class: StorageClass::Cold, restore: Some(RestoreStatus::InProgress) },
            ObjectState { class: StorageClass::Cold, restore: Some(RestoreStatus::Completed) },
        ),
        Transition::RestoreFail => (
            ObjectState { class: StorageClass::Cold, restore: Some(RestoreStatus::InProgress) },
            ObjectState { class: StorageClass::Cold, restore: Some(RestoreStatus::Failed) },
        ),
        Transition::Expire => (
            ObjectState { class: StorageClass::Cold, restore: Some(RestoreStatus::Completed) },
            ObjectState { class: StorageClass::Cold, restore: Some(RestoreStatus::Expired) },
        ),
        Transition::Clear => (
            ObjectState { class: StorageClass::Cold, restore: Some(RestoreStatus::Expired) },
            ObjectState { class: StorageClass::Cold, restore: None },
        ),
    };
    if s == from {
        Some(to)
    } else {
        None
    }
}

/// The lifecycle position of a metadata record.
pub open spec fn state_of(m: ObjectMetadata) -> ObjectState {
    st(m.storage_class, m.restore_status)
}

/// The two records hold the same tape set.
pub open spec fn same_tape_set(r: ObjectMetadata, m: ObjectMetadata) -> bool {
    match (r.tape_set, m.tape_set) {
        (None, None) => true,
        (Some(v), Some(w)) => v@ == w@,
        _ => false,
    }
}

/// The two records agree in every field, tape sets compared by their contents.
pub open spec fn same_record(a: ObjectMetadata, b: ObjectMetadata) -> bool {
    &&& a.bucket == b.bucket
    &&& a.object_key == b.object_key
    &&& a.version == b.version
    &&& a.storage_class == b.storage_class
    &&& a.archive_id == b.archive_id
    &&& a.tape_id == b.tape_id
    &&& same_tape_set(a, b)
    &&& a.checksum == b.checksum
    &&& a.size == b.size
    &&& a.restore_status == b.restore_status
    &&& a.restore_expire_at == b.restore_expire_at
    &&& a.created_at == b.created_at
    &&& a.updated_at == b.updated_at
}

/// `r` is the record `m` after the legal transition `t` at time `now`: the new
/// state, the fields the event records, `updated_at = now`, and every other
/// field unchanged.
pub open spec fn is_after(m: ObjectMetadata, t: Transition, now: u64, r: ObjectMetadata) -> bool {
    let s = next_state(state_of(m), t).unwrap();
    &&& r.bucket == m.bucket
    &&& r.object_key == m.object_key
    &&& r.version == m.version
    &&& r.checksum == m.checksum
    &&& r.size == m.size
    &&& r.created_at == m.created_at
    &&& r.storage_class == s.class
    &&& r.restore_status == s.restore
    &&& r.updated_at == now
    &&& match t {
        Transition::ArchiveCommit { archive_id, tape_id } => {
            &&& r.archive_id == Some(archive_id)
            &&& r.tape_id == Some(tape_id)
            &&& r.tape_set matches Some(v) && v@ == seq![tape_id]
            &&& r.restore_expire_at == m.restore_expire_at
        },
        Transition::ArchiveFail => {
            &&& r.archive_id == None::<u128>
            &&& r.tape_id == None::<String>
            &&& r.tape_set == None::<Vec<String>>
            &&& r.restore_expire_at == m.restore_expire_at
        },
        Transition::RestoreOk { expire_at } => {
            &&& r.archive_id == m.archive_id
            &&& r.tape_id == m.tape_id
            &&& same_tape_set(r, m)
            &&& r.restore_expire_at == Some(expire_at)
        },
        _ => {
            &&& r.archive_id == m.archive_id
            &&& r.tape_id == m.tape_id
            &&& same_tape_set(r, m)
            &&& r.restore_expire_at == (match t {
                Transition::Demote => m.restore_expire_at,
                _ => None::<u64>,
            })
        },
    }
}

/// A copy of a list of strings.
pub fn copy_strings(v: &Vec<String>) -> (r: Vec<String>)
    ensures
        r@ == v@,
{
    let mut r: Vec<String> = Vec::new();
    let mut i: usize = 0;
    while i < v.len()
        invariant
            i <= v.len(),
            r@ == v@.subrange(0, i as int),
        decreases v.len() - i,
    {
        r.push(v[i].clone());
        i = i + 1;
    }
    assert(r@ =~= v@);
    r
}

/// A copy of an optional string.
pub fn copy_opt_string(s: &Option<String>) -> (r: Option<String>)
    ensures
        r == *s,
{
    match s {
        None => None,
        Some(x) => Some(x.clone()),
    }
}

/// A field-by-field copy of a metadata record.
pub fn duplicate_record(m: &ObjectMetadata) -> (r: ObjectMetadata)
    ensures
        same_record(r, *m),
{
    ObjectMetadata {
        bucket: m.bucket.clone(),
        object_key: m.object_key.clone(),
        version: copy_opt_string(&m.version),
        storage_class: m.storage_class,
        archive_id: m.archive_id,
        tape_id: copy_opt_string(&m.tape_id),
        tape_set: match &m.tape_set {
            None => None,
            Some(v) => Some(copy_strings(v)),
        },
        checksum: m.checksum.clone(),
        size: m.size,
        restore_status: m.restore_status,
        restore_expire_at: m.restore_expire_at,
        created_at: m.created_at,
        updated_at: m.updated_at,
    }
}

/// Applies `t` to the record `m` at time `now`; `None` where the transition is
/// not legal from the record's state.
pub fn transition_record(m: &ObjectMetadata, t: &Transition, now: u64) -> (r: Option<ObjectMetadata>)
    ensures
        next_state(state_of(*m), *t) is None <==> r is None,
        r matches Some(r) ==> is_after(*m, *t, now, r),
{
    let s = ObjectState { class: m.storage_class, restore: m.restore_status };
    match apply_transition(s, t) {
        None => None,
        Some(n) => {
            let mut r = duplicate_record(m);
            r.storage_class = n.class;
            r.restore_status = n.restore;
            r.updated_at = now;
            match t {
                Transition::ArchiveCommit { archive_id, tape_id } => {
                    r.archive_id = Some(*archive_id);
                    r.tape_id = Some(tape_id.clone());
                    let mut set: Vec<String> = Vec::new();
                    set.push(tape_id.clone());
                    r.tape_set = Some(set);
                },
                Transition::ArchiveFail => {
                    r.archive_id = None;
                    r.tape_id = None;
                    r.tape_set = None;
                },
                Transition::RestoreOk { expire_at } => {
                    r.restore_expire_at = Some(*expire_at);
                },
                Transition::Demote => {},
                _ => {
                    r.restore_expire_at = None;
                },
            }
            Some(r)
        },
    }
}

} // verus!
