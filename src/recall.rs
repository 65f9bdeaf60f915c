use vstd::prelude::*;
use crate::error::{Error, Result};
use crate::lifecycle::{is_after, restorable, state_of, Transition};
use crate::metadata::{MetadataService, ObjectId};
use crate::models::{copy_task, new_id, ArchiveBundle, ObjectMetadata, RecallTask, RestoreStatus, StorageClass, TapeStatus};
use crate::cache::CacheManager;
use crate::archive::range_sum;
use crate::notification::{Notification, NotificationService};
use crate::tape::TapeManager;
use vstd::string::StringExecFns;

verus! {

/// Seconds in a day.
pub const DAY_SECS: u64 = 86400;

/// The end of a restore window of `days` days opened at `now`, saturated at
/// `u64::MAX`.
pub open spec fn window_end(now: u64, days: u32) -> u64 {
    if now + days * DAY_SECS > u64::MAX { u64::MAX } else { (now + days * DAY_SECS) as u64 }
}

pub fn window_end_of(now: u64, days: u32) -> (r: u64)
    ensures
        r == window_end(now, days),
{
    let span: u64 = days as u64 * DAY_SECS;
    if span > u64::MAX - now { u64::MAX } else { now + span }
}

/// The restore window of `m` is open at `now`.
pub open spec fn window_live(m: ObjectMetadata, now: u64) -> bool {
    &&& m.restore_status == Some(RestoreStatus::Completed)
    &&& m.restore_expire_at is Some
    &&& m.restore_expire_at.unwrap() > now
}

/// Member `q` of a bundle is `bucket`/`key`.
pub open spec fn member_at(buckets: Seq<String>, keys: Seq<String>, size: u64, q: int, bucket: Seq<char>, key: Seq<char>) -> bool {
    buckets[q]@ == bucket && keys[q]@ == key
}

/// The bundle lists `bucket`/`key` as a member whose bytes lie within the
/// `dlen` bytes read for it.
pub open spec fn has_member(buckets: Seq<String>, keys: Seq<String>, sizes: Seq<u64>, dlen: int, bucket: Seq<char>, key: Seq<char>) -> bool {
    &&& buckets.len() == sizes.len()
    &&& keys.len() == sizes.len()
    &&& exists|q: int| 0 <= q < sizes.len() && member_at(buckets, keys, #[trigger] sizes[q], q, bucket, key)
        && range_sum(sizes, 0, q + 1) <= dlen
}

/// The bundle of read group `group` can be staged: its tape is Online, its
/// record exists, and its bytes lie within what the tape holds and match its
/// checksum.
pub open spec fn bundle_readable(store: &MetadataService, tapes: &TapeManager, group: &ReadGroup) -> bool {
    readable_at(store, tapes, group.tape_id@, group.archive_id)
}

/// Bundle `a` on tape `t` can be staged (see `bundle_readable`).
pub open spec fn readable_at(store: &MetadataService, tapes: &TapeManager, t: Seq<char>, a: u128) -> bool {
    let b = store.bundle_view()[a];
    &&& tapes.has_tape(t)
    &&& tapes.status(t) == TapeStatus::Online
    &&& store.bundle_view().contains_key(a)
    &&& b.offset + b.total_size <= tapes.written(t).len()
    &&& crate::tape::checksum(tapes.written(t).subrange(b.offset as int, b.offset + b.total_size)) == b.checksum
}

/// Task `t` can be served from bundle `b` into a cache of `max` bytes: the
/// bundle lists its object, and no member is larger than the cache.
pub open spec fn stageable(b: ArchiveBundle, t: RecallTask, max: u64) -> bool {
    &&& has_member(b.buckets@, b.object_keys@, b.sizes@, b.total_size as int, t.bucket@, t.object_key@)
    &&& forall|q: int| 0 <= q < b.sizes@.len() ==> #[trigger] b.sizes@[q] <= max
}

/// A task that still has work to do.
pub open spec fn is_live(t: RecallTask) -> bool {
    t.status == RestoreStatus::Pending || t.status == RestoreStatus::InProgress
}

pub open spec fn task_oid(t: RecallTask) -> ObjectId {
    (t.bucket@, t.object_key@)
}

/// A restore of an object that still runs in `store`: it is cold with a
/// `Pending` or `InProgress` restore.
pub open spec fn restoring(store: Map<ObjectId, ObjectMetadata>, id: ObjectId) -> bool {
    &&& store.contains_key(id)
    &&& store[id].storage_class == StorageClass::Cold
    &&& (store[id].restore_status == Some(RestoreStatus::Pending) || store[id].restore_status == Some(RestoreStatus::InProgress))
}

/// No object has two live tasks, and each live task's object is restoring,
/// with the task's status as its restore status.
pub open spec fn tasks_consistent(tasks: Seq<RecallTask>, store: Map<ObjectId, ObjectMetadata>) -> bool {
    &&& forall|i: int, j: int| 0 <= i < tasks.len() && 0 <= j < tasks.len() && i != j && is_live(#[trigger] tasks[i])
        && is_live(#[trigger] tasks[j]) ==> task_oid(tasks[i]) != task_oid(tasks[j])
    &&& forall|i: int| 0 <= i < tasks.len() && is_live(#[trigger] tasks[i]) ==> restoring(store, task_oid(tasks[i]))
        && store[task_oid(tasks[i])].restore_status == Some(tasks[i].status)
}

/// The legal task steps: the transition applied to the object, the task
/// status before, and the task status after.
pub open spec fn task_step(t: Transition, from: RestoreStatus, to: RestoreStatus) -> bool {
    ||| (t == Transition::Picked && from == RestoreStatus::Pending && to == RestoreStatus::InProgress)
    ||| (t matches Transition::RestoreOk { .. } && from == RestoreStatus::InProgress && to == RestoreStatus::Completed)
    ||| (t == Transition::RestoreFail && from == RestoreStatus::InProgress && to == RestoreStatus::Failed)
}

/// Every object keeps its storage class and bundle.
pub open spec fn placement_kept(old: Map<ObjectId, ObjectMetadata>, new: Map<ObjectId, ObjectMetadata>) -> bool {
    &&& forall|id: ObjectId| #[trigger] new.contains_key(id) <==> old.contains_key(id)
    &&& forall|id: ObjectId| #[trigger] old.contains_key(id) ==> new[id].storage_class == old[id].storage_class
        && new[id].archive_id == old[id].archive_id
}

pub proof fn lemma_placement_trans(a: Map<ObjectId, ObjectMetadata>, b: Map<ObjectId, ObjectMetadata>, c: Map<ObjectId, ObjectMetadata>)
    requires
        placement_kept(a, b),
        placement_kept(b, c),
    ensures
        placement_kept(a, c),
{
    assert forall|id: ObjectId| #[trigger] a.contains_key(id) implies c[id].storage_class == a[id].storage_class
        && c[id].archive_id == a[id].archive_id by {
        assert(b.contains_key(id));
    }
}

pub proof fn lemma_placement_refl(a: Map<ObjectId, ObjectMetadata>)
    ensures
        placement_kept(a, a),
{
}

/// The bundle key of a task: its tape and bundle.
pub open spec fn read_key(t: RecallTask) -> (Seq<char>, u128) {
    (t.tape_id@, t.archive_id)
}

/// Object `id` is RestoreReady until `end`.
pub open spec fn ready_until(store: Map<ObjectId, ObjectMetadata>, id: ObjectId, end: u64) -> bool {
    &&& store.contains_key(id)
    &&& store[id].storage_class == StorageClass::Cold
    &&& store[id].restore_status == Some(RestoreStatus::Completed)
    &&& store[id].restore_expire_at == Some(end)
}

/// The live tasks waiting on one bundle of one tape: they share a single
/// positioned read.
pub struct ReadGroup {
    pub tape_id: String,
    pub archive_id: u128,
    pub tasks: Vec<usize>,
}

/// The cache key of an object: its bucket, a slash, and its key.
pub open spec fn cache_key(bucket: Seq<char>, key: Seq<char>) -> Seq<char> {
    bucket + seq!['/'] + key
}

pub fn cache_key_of(bucket: &String, key: &String) -> (r: String)
    ensures
        r@ == cache_key(bucket@, key@),
{
    let mut k = bucket.clone();
    k.append("/");
    proof { reveal_strlit("/"); }
    k.append(key.as_str());
    k
}

/// Admits restore requests, coalesces them by tape and bundle, and runs them.
pub struct RecallScheduler {
    tasks: Vec<RecallTask>,
    max_concurrent: usize,
    restore_timeout_secs: u64,
    min_restore_interval_secs: u64,
    offline_notified: Vec<String>,
}

impl RecallScheduler {
    /// Every task ever admitted, oldest first.
    pub closed spec fn tasks(&self) -> Seq<RecallTask> {
        self.tasks@
    }

    pub closed spec fn timeout(&self) -> u64 {
        self.restore_timeout_secs
    }

    /// An offline alert for tape `t` was sent and the tape has not been seen
    /// Online since.
    pub closed spec fn offline_alerted(&self, t: Seq<char>) -> bool {
        exists|i: int| 0 <= i < self.offline_notified@.len() && (#[trigger] self.offline_notified@[i])@ == t
    }

    /// The scheduler agrees with `store`: no object has two live tasks.
    pub open spec fn consistent(&self, store: &MetadataService) -> bool {
        tasks_consistent(self.tasks(), store@)
    }

    pub fn new(max_concurrent: usize, restore_timeout_secs: u64, min_restore_interval_secs: u64) -> (r: Self)
        ensures
            r.tasks() == Seq::<RecallTask>::empty(),
            r.timeout() == restore_timeout_secs,
    {
        RecallScheduler {
            tasks: Vec::new(),
            max_concurrent,
            restore_timeout_secs,
            min_restore_interval_secs,
            offline_notified: Vec::new(),
        }
    }

    /// The index of the newest task of `bucket`/`key`, live ones only if
    /// `live_only`.
    fn find_task(&self, bucket: &String, key: &String, live_only: bool) -> (r: Option<usize>)
        ensures
            r matches Some(i) ==> i < self.tasks@.len() && task_oid(self.tasks@[i as int]) == (bucket@, key@)
                && (live_only ==> is_live(self.tasks@[i as int])),
            r is None ==> forall|i: int| 0 <= i < self.tasks@.len() && task_oid(#[trigger] self.tasks@[i]) == (bucket@, key@)
                ==> (live_only && !is_live(self.tasks@[i])),
    {
        let mut i: usize = self.tasks.len();
        while i > 0
            invariant
                i <= self.tasks@.len(),
                forall|j: int| i <= j < self.tasks@.len() && task_oid(#[trigger] self.tasks@[j]) == (bucket@, key@)
                    ==> (live_only && !is_live(self.tasks@[j])),
            decreases i,
        {
            i = i - 1;
            let t = &self.tasks[i];
            if t.bucket == *bucket && t.object_key == *key {
                let live = t.status == RestoreStatus::Pending || t.status == RestoreStatus::InProgress;
                if !live_only || live {
                    return Some(i);
                }
            }
        }
        None
    }

    /// Admits a restore of `bucket`/`key` for `days` days at time `now`,
    /// giving a new task the id `id`. A missing object gives
    /// `ObjectNotFound`, one that is not cold `InvalidObjectState`. A restore
    /// whose window is still open is extended to end no earlier than `days`
    /// days from now and answered with the object's newest task; no live task
    /// is added. A restore that is pending or in progress is answered with its
    /// live task. Otherwise (no restore, or one that expired, failed, or whose
    /// window has passed) the object becomes Restoring(Pending) and a new
    /// Pending task for its bundle is queued. An `id` already used by a task
    /// is refused with `Internal`, changing nothing.
    pub fn submit_restore_with_id(&mut self, store: &mut MetadataService, bucket: &str, key: &str, days: u32, id: u128, now: u64) -> (r: Result<RecallTask>)
        requires
            old(store).wf(),
            old(self).consistent(old(store)),
        ensures
            final(store).wf(),
            final(self).consistent(final(store)),
            final(store).bundle_view() == old(store).bundle_view(),
            final(self).timeout() == old(self).timeout(),
            old(store).cold_backed() ==> final(store).cold_backed(),
            forall|x: ObjectId| x != (bucket@, key@) ==> (#[trigger] final(store)@.contains_key(x) <==> old(store)@.contains_key(x))
                && (old(store)@.contains_key(x) ==> final(store)@[x] == old(store)@[x]),
            final(store)@.contains_key((bucket@, key@)) <==> old(store)@.contains_key((bucket@, key@)),
            !old(store)@.contains_key((bucket@, key@)) ==> (r matches Err(Error::ObjectNotFound)),
            r is Err ==> final(store)@ == old(store)@ && final(self).tasks() == old(self).tasks(),
            (old(store)@.contains_key((bucket@, key@)) && r is Ok) ==> final(store)@[(bucket@, key@)].storage_class == StorageClass::Cold,
            old(store)@.contains_key((bucket@, key@)) ==> {
                let m = old(store)@[(bucket@, key@)];
                let f = final(store)@[(bucket@, key@)];
                let tasks0 = old(self).tasks();
                let has_task = exists|i: int| 0 <= i < tasks0.len() && task_oid(#[trigger] tasks0[i]) == (bucket@, key@);
                let fresh = forall|i: int| 0 <= i < tasks0.len() ==> (#[trigger] tasks0[i]).id != id;
                &&& m.storage_class != StorageClass::Cold ==> (r matches Err(Error::InvalidObjectState(_)))
                &&& (m.storage_class == StorageClass::Cold && window_live(m, now)) ==> {
                    let e = m.restore_expire_at.unwrap();
                    &&& (has_task || fresh) ==> r is Ok
                    &&& r is Ok ==> f == ObjectMetadata {
                        restore_expire_at: Some(if e >= window_end(now, days) { e } else { window_end(now, days) }),
                        ..m
                    }
                    &&& has_task ==> final(self).tasks() == tasks0 && tasks0.contains(r.unwrap())
                    &&& (r is Ok && !has_task) ==> final(self).tasks() == tasks0.push(r.unwrap())
                        && r.unwrap().status == RestoreStatus::Completed && r.unwrap().id == id
                }
                &&& (m.storage_class == StorageClass::Cold && (m.restore_status == Some(RestoreStatus::Pending)
                    || m.restore_status == Some(RestoreStatus::InProgress))) ==> {
                    &&& f == m
                    &&& final(self).tasks() == tasks0
                    &&& (exists|i: int| 0 <= i < tasks0.len() && is_live(#[trigger] tasks0[i]) && task_oid(tasks0[i]) == (bucket@, key@))
                        ==> r is Ok
                    &&& (r matches Ok(t) ==> task_oid(t) == (bucket@, key@) && is_live(t) && tasks0.contains(t))
                }
                &&& ((restorable(state_of(m)) || (m.storage_class == StorageClass::Cold && m.restore_status == Some(RestoreStatus::Completed)
                    && !window_live(m, now))) && m.archive_id is Some && m.tape_id is Some) ==> {
                    &&& r is Ok <==> fresh
                    &&& r is Err ==> (r matches Err(Error::Internal(_)))
                    &&& r is Ok ==> {
                        &&& r.unwrap().status == RestoreStatus::Pending
                        &&& r.unwrap().id == id
                        &&& task_oid(r.unwrap()) == (bucket@, key@)
                        &&& Some(r.unwrap().archive_id) == m.archive_id
                        &&& Some(r.unwrap().tape_id) == m.tape_id
                        &&& r.unwrap().days == days
                        &&& r.unwrap().created_at == now
                        &&& final(self).tasks() == tasks0.push(r.unwrap())
                        &&& f.storage_class == StorageClass::Cold
                        &&& f.restore_status == Some(RestoreStatus::Pending)
                        &&& f.archive_id == m.archive_id
                        &&& restorable(state_of(m)) ==> is_after(m, Transition::RestoreRequest, now, f)
                    }
                }
            },
    {
        let b = crate::metadata::owned(bucket);
        let k = crate::metadata::owned(key);
        let ghost oid0 = (bucket@, key@);
        let m = match store.get_object(bucket, key) {
            Err(e) => { return Err(e); },
            Ok(m) => m,
        };
        if m.storage_class != StorageClass::Cold {
            return Err(Error::InvalidObjectState("only cold objects can be restored".to_owned()));
        }
        let open = match (m.restore_status, m.restore_expire_at) {
            (Some(RestoreStatus::Completed), Some(e)) => e > now,
            _ => false,
        };
        if open {
            let e = match m.restore_expire_at { Some(e) => e, None => 0 };
            let end = window_end_of(now, days);
            return match self.find_task(&b, &k, false) {
                Some(i) => {
                    let _ = store.set_restore_expiry(bucket, key, if e >= end { e } else { end });
                    Ok(copy_task(&self.tasks[i]))
                },
                None => {
                    if self.id_taken(id) {
                        return Err(Error::Internal("task id taken".to_owned()));
                    }
                    let _ = store.set_restore_expiry(bucket, key, if e >= end { e } else { end });
                    let t = RecallTask {
                        id,
                        object_key: k,
                        bucket: b,
                        archive_id: match m.archive_id { Some(a) => a, None => 0 },
                        tape_id: match &m.tape_id { Some(t) => t.clone(), None => String::new() },
                        status: RestoreStatus::Completed,
                        priority: 0,
                        days,
                        created_at: now,
                        started_at: None,
                        completed_at: Some(now),
                        error: None,
                    };
                    let out = copy_task(&t);
                    self.tasks.push(t);
                    Ok(out)
                },
            };
        }
        match m.restore_status {
            Some(RestoreStatus::Pending) | Some(RestoreStatus::InProgress) => {
                return match self.find_task(&b, &k, true) {
                    Some(i) => Ok(copy_task(&self.tasks[i])),
                    None => Err(Error::Internal("restore without a task".to_owned())),
                };
            },
            _ => {},
        }
        let (archive_id, tape_id) = match (m.archive_id, &m.tape_id) {
            (Some(a), Some(t)) => (a, t.clone()),
            _ => {
                return Err(Error::Internal("cold object without a tape location".to_owned()));
            },
        };
        if self.id_taken(id) {
            return Err(Error::Internal("task id taken".to_owned()));
        }
        let ghost before0 = store@;
        if m.restore_status == Some(RestoreStatus::Completed) {
            // the window has passed: end it first
            let ex = store.update_storage_class(bucket, key, Transition::Expire, now);
            assert(ex is Ok);
        }
        let ghost before = store@;
        proof {
            assert forall|i: int| 0 <= i < self.tasks@.len() && is_live(#[trigger] self.tasks@[i])
                implies restoring(before, task_oid(self.tasks@[i])) && task_oid(self.tasks@[i]) != oid0 by {
                assert(restoring(before0, task_oid(self.tasks@[i])));
            }
        }
        let res = store.update_storage_class(bucket, key, Transition::RestoreRequest, now);
        assert(res is Ok);
        let priority: u32 = if m.size <= 1048576 { 2 } else if m.size <= 1073741824 { 1 } else { 0 };
        let t = RecallTask {
            id,
            object_key: k,
            bucket: b,
            archive_id,
            tape_id,
            status: RestoreStatus::Pending,
            priority,
            days,
            created_at: now,
            started_at: None,
            completed_at: None,
            error: None,
        };
        let out = copy_task(&t);
        let ghost old_tasks = self.tasks@;
        self.tasks.push(t);
        proof {
            let ts = self.tasks@;
            assert forall|i: int, j: int| 0 <= i < ts.len() && 0 <= j < ts.len() && i != j && is_live(#[trigger] ts[i])
                && is_live(#[trigger] ts[j]) implies task_oid(ts[i]) != task_oid(ts[j]) by {
                if i < old_tasks.len() && j < old_tasks.len() {
                    assert(ts[i] == old_tasks[i] && ts[j] == old_tasks[j]);
                } else if i < old_tasks.len() {
                    assert(ts[i] == old_tasks[i]);
                } else {
                    assert(ts[j] == old_tasks[j]);
                }
            }
            assert forall|i: int| 0 <= i < ts.len() && is_live(#[trigger] ts[i]) implies restoring(store@, task_oid(ts[i]))
                && store@[task_oid(ts[i])].restore_status == Some(ts[i].status) by {
                if i < old_tasks.len() {
                    assert(ts[i] == old_tasks[i]);
                }
            }
            if old(store).cold_backed() {
                assert forall|x: ObjectId| #[trigger] store@.contains_key(x) && store@[x].storage_class == StorageClass::Cold
                    implies (store@[x].archive_id matches Some(a) && store.bundle_view().contains_key(a)
                    && store.bundle_view()[a].status == crate::models::ArchiveBundleStatus::Completed) by {
                    assert(old(store)@.contains_key(x));
                }
            }
        }
        Ok(out)
    }

    /// Whether some task has id `id`.
    fn id_taken(&self, id: u128) -> (r: bool)
        ensures
            r == exists|i: int| 0 <= i < self.tasks@.len() && (#[trigger] self.tasks@[i]).id == id,
    {
        let mut i: usize = 0;
        while i < self.tasks.len()
            invariant
                i <= self.tasks@.len(),
                forall|j: int| 0 <= j < i ==> (#[trigger] self.tasks@[j]).id != id,
            decreases self.tasks.len() - i,
        {
            if self.tasks[i].id == id {
                return true;
            }
            i = i + 1;
        }
        false
    }

    /// Admits a restore of `bucket`/`key` for `days` days at time `now`,
    /// under a fresh random task id (see `submit_restore_with_id`).
    pub fn submit_restore(&mut self, store: &mut MetadataService, bucket: &str, key: &str, days: u32, now: u64) -> (r: Result<RecallTask>)
        requires
            old(store).wf(),
            old(self).consistent(old(store)),
        ensures
            final(store).wf(),
            final(self).consistent(final(store)),
            final(store).bundle_view() == old(store).bundle_view(),
            final(self).timeout() == old(self).timeout(),
            old(store).cold_backed() ==> final(store).cold_backed(),
            forall|x: ObjectId| x != (bucket@, key@) ==> (#[trigger] final(store)@.contains_key(x) <==> old(store)@.contains_key(x))
                && (old(store)@.contains_key(x) ==> final(store)@[x] == old(store)@[x]),
            final(store)@.contains_key((bucket@, key@)) <==> old(store)@.contains_key((bucket@, key@)),
            !old(store)@.contains_key((bucket@, key@)) ==> (r matches Err(Error::ObjectNotFound)),
            r is Err ==> final(store)@ == old(store)@ && final(self).tasks() == old(self).tasks(),
            old(store)@.contains_key((bucket@, key@)) ==> {
                let m = old(store)@[(bucket@, key@)];
                let f = final(store)@[(bucket@, key@)];
                let tasks0 = old(self).tasks();
                let has_task = exists|i: int| 0 <= i < tasks0.len() && task_oid(#[trigger] tasks0[i]) == (bucket@, key@);
                &&& m.storage_class != StorageClass::Cold ==> (r matches Err(Error::InvalidObjectState(_)))
                &&& (m.storage_class == StorageClass::Cold && window_live(m, now)) ==> {
                    let e = m.restore_expire_at.unwrap();
                    &&& has_task ==> r is Ok
                    &&& r is Ok ==> f == ObjectMetadata {
                        restore_expire_at: Some(if e >= window_end(now, days) { e } else { window_end(now, days) }),
                        ..m
                    }
                    &&& has_task ==> final(self).tasks() == tasks0 && tasks0.contains(r.unwrap())
                    &&& (r is Ok && !has_task) ==> final(self).tasks() == tasks0.push(r.unwrap())
                        && r.unwrap().status == RestoreStatus::Completed
                }
                &&& (m.storage_class == StorageClass::Cold && (m.restore_status == Some(RestoreStatus::Pending)
                    || m.restore_status == Some(RestoreStatus::InProgress))) ==> {
                    &&& f == m
                    &&& final(self).tasks() == tasks0
                    &&& (exists|i: int| 0 <= i < tasks0.len() && is_live(#[trigger] tasks0[i]) && task_oid(tasks0[i]) == (bucket@, key@))
                        ==> r is Ok
                    &&& (r matches Ok(t) ==> task_oid(t) == (bucket@, key@) && is_live(t) && tasks0.contains(t))
                }
                &&& ((restorable(state_of(m)) || (m.storage_class == StorageClass::Cold && m.restore_status == Some(RestoreStatus::Completed)
                    && !window_live(m, now))) && m.archive_id is Some && m.tape_id is Some) ==> {
                    &&& r is Err ==> (r matches Err(Error::Internal(_)))
                    &&& r is Ok ==> {
                        &&& r.unwrap().status == RestoreStatus::Pending
                        &&& task_oid(r.unwrap()) == (bucket@, key@)
                        &&& Some(r.unwrap().archive_id) == m.archive_id
                        &&& Some(r.unwrap().tape_id) == m.tape_id
                        &&& r.unwrap().days == days
                        &&& r.unwrap().created_at == now
                        &&& final(self).tasks() == tasks0.push(r.unwrap())
                        &&& f.storage_class == StorageClass::Cold
                        &&& f.restore_status == Some(RestoreStatus::Pending)
                        &&& f.archive_id == m.archive_id
                        &&& restorable(state_of(m)) ==> is_after(m, Transition::RestoreRequest, now, f)
                    }
                }
            },
            old(store)@.contains_key((bucket@, key@)) && old(store)@[(bucket@, key@)].storage_class != StorageClass::Cold
                ==> (r matches Err(Error::InvalidObjectState(_))),
            (old(store)@.contains_key((bucket@, key@)) && r is Ok) ==> final(store)@[(bucket@, key@)].storage_class == StorageClass::Cold,
    {
        let id = new_id();
        self.submit_restore_with_id(store, bucket, key, days, id, now)
    }

    /// Moves live task `i` one step: applies `t` to its object and sets the
    /// task's status to `to`.
    fn step(&mut self, store: &mut MetadataService, i: usize, t: Transition, to: RestoreStatus, now: u64)
        requires
            old(store).wf(),
            old(self).consistent(old(store)),
            i < old(self).tasks@.len(),
            is_live(old(self).tasks@[i as int]),
            task_step(t, old(self).tasks@[i as int].status, to),
        ensures
            final(store).wf(),
            final(self).consistent(final(store)),
            final(store).bundle_view() == old(store).bundle_view(),
            placement_kept(old(store)@, final(store)@),
            final(self).offline_notified == old(self).offline_notified,
            final(self).timeout() == old(self).timeout(),
            final(self).tasks@.len() == old(self).tasks@.len(),
            final(self).tasks@[i as int] == (RecallTask { status: to, ..old(self).tasks@[i as int] }),
            forall|j: int| 0 <= j < final(self).tasks@.len() && j != i ==> final(self).tasks@[j] == old(self).tasks@[j],
            is_after(old(store)@[task_oid(old(self).tasks@[i as int])], t, now, final(store)@[task_oid(old(self).tasks@[i as int])]),
            forall|x: ObjectId| x != task_oid(old(self).tasks@[i as int]) && old(store)@.contains_key(x)
                ==> #[trigger] final(store)@[x] == old(store)@[x],
    {
        let ghost id = task_oid(self.tasks@[i as int]);
        let ghost before = store@;
        let ghost old_tasks = self.tasks@;
        let res = store.update_storage_class(&self.tasks[i].bucket, &self.tasks[i].object_key, t, now);
        assert(res is Ok);
        let cur = copy_task(&self.tasks[i]);
        let nt = RecallTask { status: to, ..cur };
        self.tasks.set(i, nt);
        proof {
            let ts = self.tasks@;
            assert forall|j: int| 0 <= j < old_tasks.len() && j != i && is_live(#[trigger] old_tasks[j]) implies task_oid(old_tasks[j]) != id by {}
            assert forall|a: int, b: int| 0 <= a < ts.len() && 0 <= b < ts.len() && a != b && is_live(#[trigger] ts[a])
                && is_live(#[trigger] ts[b]) implies task_oid(ts[a]) != task_oid(ts[b]) by {
                assert(is_live(old_tasks[a]) && is_live(old_tasks[b]));
            }
            assert forall|j: int| 0 <= j < ts.len() && is_live(#[trigger] ts[j]) implies restoring(store@, task_oid(ts[j]))
                && store@[task_oid(ts[j])].restore_status == Some(ts[j].status) by {
                if j != i {
                    assert(ts[j] == old_tasks[j]);
                    assert(is_live(old_tasks[j]));
                }
            }
            assert forall|x: ObjectId| #[trigger] before.contains_key(x) implies store@[x].storage_class == before[x].storage_class
                && store@[x].archive_id == before[x].archive_id by {
                if x == id {} else {}
            }
        }
    }

    /// The live tasks from index `start` on whose bundle key is `key`, in
    /// order.
    #[verifier::loop_isolation(false)]
    fn members_from(&self, start: usize, key_tape: &String, key_archive: u128) -> (r: Vec<usize>)
        requires
            start <= self.tasks@.len(),
        ensures
            forall|k: int| 0 <= k < r@.len() ==> start <= #[trigger] r@[k] < self.tasks@.len() && is_live(self.tasks@[r@[k] as int])
                && read_key(self.tasks@[r@[k] as int]) == (key_tape@, key_archive),
            forall|j: int| start <= j < self.tasks@.len() && is_live(#[trigger] self.tasks@[j])
                && read_key(self.tasks@[j]) == (key_tape@, key_archive) ==> r@.contains(j as usize),
            forall|a: int, b: int| 0 <= a < b < r@.len() ==> r@[a] < r@[b],
    {
        let mut out: Vec<usize> = Vec::new();
        let mut j: usize = start;
        while j < self.tasks.len()
            invariant
                start <= j <= self.tasks@.len(),
                forall|k: int| 0 <= k < out@.len() ==> start <= #[trigger] out@[k] < j && is_live(self.tasks@[out@[k] as int])
                    && read_key(self.tasks@[out@[k] as int]) == (key_tape@, key_archive),
                forall|q: int| start <= q < j && q < self.tasks@.len() && is_live(#[trigger] self.tasks@[q])
                    && read_key(self.tasks@[q]) == (key_tape@, key_archive) ==> out@.contains(q as usize),
                forall|a: int, b: int| 0 <= a < b < out@.len() ==> out@[a] < out@[b],
            decreases self.tasks.len() - j,
        {
            let t = &self.tasks[j];
            let live = t.status == RestoreStatus::Pending || t.status == RestoreStatus::InProgress;
            let ghost before = out@;
            if live && t.tape_id == *key_tape && t.archive_id == key_archive {
                out.push(j);
                proof {
                    assert(out@[out@.len() - 1] == j);
                    assert forall|k: int| 0 <= k < out@.len() implies start <= #[trigger] out@[k] < j + 1 && is_live(self.tasks@[out@[k] as int])
                        && read_key(self.tasks@[out@[k] as int]) == (key_tape@, key_archive) by {
                        if k < before.len() { assert(out@[k] == before[k]); }
                    }
                    assert forall|q: int| start <= q < j + 1 && q < self.tasks@.len() && is_live(#[trigger] self.tasks@[q])
                        && read_key(self.tasks@[q]) == (key_tape@, key_archive) implies out@.contains(q as usize) by {
                        if q < j {
                            let w = choose|w: int| 0 <= w < before.len() && before[w] == q as usize;
                            assert(out@[w] == q as usize);
                        }
                    }
                }
            }
            j = j + 1;
        }
        out
    }

    /// Coalesces the live tasks by bundle: one group per (tape, bundle) in
    /// order of first arrival, each listing its tasks in arrival order.
    #[verifier::loop_isolation(false)]
    #[verifier::rlimit(100)]
    pub fn merge_tasks_by_tape(&self) -> (r: Vec<ReadGroup>)
        ensures
            forall|g: int, k: int| 0 <= g < r@.len() && 0 <= k < r@[g].tasks@.len() ==> {
                let i = #[trigger] r@[g].tasks@[k];
                &&& i < self.tasks().len()
                &&& is_live(self.tasks()[i as int])
                &&& read_key(self.tasks()[i as int]) == (r@[g].tape_id@, r@[g].archive_id)
            },
            forall|g: int, h: int| 0 <= g < r@.len() && 0 <= h < r@.len() && g != h
                ==> (#[trigger] r@[g].tape_id@, r@[g].archive_id) != (#[trigger] r@[h].tape_id@, r@[h].archive_id),
            forall|i: int| 0 <= i < self.tasks().len() && is_live(#[trigger] self.tasks()[i]) ==> exists|g: int|
                0 <= g < r@.len() && (r@[g].tape_id@, r@[g].archive_id) == read_key(self.tasks()[i]) && r@[g].tasks@.contains(i as usize),
            forall|g: int, a: int, b: int| 0 <= g < r@.len() && 0 <= a < b < r@[g].tasks@.len() ==> #[trigger] r@[g].tasks@[a] < #[trigger] r@[g].tasks@[b],
    {
        let mut groups: Vec<ReadGroup> = Vec::new();
        let mut i: usize = 0;
        while i < self.tasks.len()
            invariant
                i <= self.tasks@.len(),
                forall|g: int, k: int| 0 <= g < groups@.len() && 0 <= k < groups@[g].tasks@.len() ==> {
                    let x = #[trigger] groups@[g].tasks@[k];
                    &&& x < self.tasks@.len()
                    &&& is_live(self.tasks@[x as int])
                    &&& read_key(self.tasks@[x as int]) == (groups@[g].tape_id@, groups@[g].archive_id)
                },
                forall|g: int, h: int| 0 <= g < groups@.len() && 0 <= h < groups@.len() && g != h
                    ==> (#[trigger] groups@[g].tape_id@, groups@[g].archive_id) != (#[trigger] groups@[h].tape_id@, groups@[h].archive_id),
                forall|g: int| 0 <= g < groups@.len() ==> exists|q: int| 0 <= q < i && is_live(self.tasks@[q])
                    && read_key(self.tasks@[q]) == (#[trigger] groups@[g].tape_id@, groups@[g].archive_id),
                forall|g: int, q: int| 0 <= g < groups@.len() && 0 <= q < self.tasks@.len() && is_live(#[trigger] self.tasks@[q])
                    && read_key(self.tasks@[q]) == (#[trigger] groups@[g].tape_id@, groups@[g].archive_id) ==> groups@[g].tasks@.contains(q as usize),
                forall|q: int| 0 <= q < i && is_live(#[trigger] self.tasks@[q]) ==> exists|g: int|
                    0 <= g < groups@.len() && (groups@[g].tape_id@, groups@[g].archive_id) == read_key(self.tasks@[q]),
                forall|g: int, a: int, b: int| 0 <= g < groups@.len() && 0 <= a < b < groups@[g].tasks@.len() ==> #[trigger] groups@[g].tasks@[a] < #[trigger] groups@[g].tasks@[b],
            decreases self.tasks.len() - i,
        {
            let t = &self.tasks[i];
            let live = t.status == RestoreStatus::Pending || t.status == RestoreStatus::InProgress;
            if live {
                // is there a group for this key already?
                let mut g: usize = 0;
                let mut found = false;
                while g < groups.len()
                    invariant
                        g <= groups@.len(),
                        !found ==> forall|h: int| 0 <= h < g ==> (#[trigger] groups@[h].tape_id@, groups@[h].archive_id) != read_key(self.tasks@[i as int]),
                        found ==> exists|h: int| 0 <= h < groups@.len() && (#[trigger] groups@[h].tape_id@, groups@[h].archive_id) == read_key(self.tasks@[i as int]),
                    decreases groups.len() - g,
                {
                    if !found && groups[g].tape_id == t.tape_id && groups[g].archive_id == t.archive_id {
                        found = true;
                    }
                    g = g + 1;
                }
                if !found {
                    let members = self.members_from(i, &t.tape_id, t.archive_id);
                    let ghost before = groups@;
                    groups.push(ReadGroup { tape_id: t.tape_id.clone(), archive_id: t.archive_id, tasks: members });
                    proof {
                        let n = before.len() as int;
                        assert(groups@[n].tape_id@ == t.tape_id@);
                        assert forall|g2: int, k: int| 0 <= g2 < groups@.len() && 0 <= k < groups@[g2].tasks@.len() implies {
                            let x = #[trigger] groups@[g2].tasks@[k];
                            &&& x < self.tasks@.len()
                            &&& is_live(self.tasks@[x as int])
                            &&& read_key(self.tasks@[x as int]) == (groups@[g2].tape_id@, groups@[g2].archive_id)
                        } by {
                            if g2 < n { assert(groups@[g2] == before[g2]); }
                        }
                        assert forall|g2: int, h: int| 0 <= g2 < groups@.len() && 0 <= h < groups@.len() && g2 != h
                            implies (#[trigger] groups@[g2].tape_id@, groups@[g2].archive_id) != (#[trigger] groups@[h].tape_id@, groups@[h].archive_id) by {
                            if g2 < n && h < n {
                                assert(groups@[g2] == before[g2] && groups@[h] == before[h]);
                            } else if g2 < n {
                                assert(groups@[g2] == before[g2]);
                                assert((before[g2].tape_id@, before[g2].archive_id) != read_key(self.tasks@[i as int]));
                            } else {
                                assert(groups@[h] == before[h]);
                                assert((before[h].tape_id@, before[h].archive_id) != read_key(self.tasks@[i as int]));
                            }
                        }
                        assert forall|g2: int| 0 <= g2 < groups@.len() implies exists|q: int| 0 <= q < i + 1 && is_live(self.tasks@[q])
                            && read_key(self.tasks@[q]) == (#[trigger] groups@[g2].tape_id@, groups@[g2].archive_id) by {
                            if g2 < n {
                                assert(groups@[g2] == before[g2]);
                                let q = choose|q: int| 0 <= q < i && is_live(self.tasks@[q])
                                    && read_key(self.tasks@[q]) == (before[g2].tape_id@, before[g2].archive_id);
                            } else {
                                assert(is_live(self.tasks@[i as int]));
                            }
                        }
                        assert forall|g2: int, q: int| 0 <= g2 < groups@.len() && 0 <= q < self.tasks@.len() && is_live(#[trigger] self.tasks@[q])
                            && read_key(self.tasks@[q]) == (#[trigger] groups@[g2].tape_id@, groups@[g2].archive_id)
                            implies groups@[g2].tasks@.contains(q as usize) by {
                            if g2 < n {
                                assert(groups@[g2] == before[g2]);
                            } else if q < i {
                                // q would have made a group with this key already
                                let w = choose|w: int| 0 <= w < before.len() && (before[w].tape_id@, before[w].archive_id) == read_key(self.tasks@[q]);
                                assert(false);
                            }
                        }
                        assert forall|g2: int, x: int, y: int| 0 <= g2 < groups@.len() && 0 <= x < y < groups@[g2].tasks@.len()
                            implies #[trigger] groups@[g2].tasks@[x] < #[trigger] groups@[g2].tasks@[y] by {
                            if g2 < n { assert(groups@[g2] == before[g2]); }
                        }
                        assert forall|q: int| 0 <= q < i + 1 && is_live(#[trigger] self.tasks@[q]) implies exists|g2: int|
                            0 <= g2 < groups@.len() && (groups@[g2].tape_id@, groups@[g2].archive_id) == read_key(self.tasks@[q]) by {
                            if q < i {
                                let w = choose|w: int| 0 <= w < before.len() && (before[w].tape_id@, before[w].archive_id) == read_key(self.tasks@[q]);
                                assert(groups@[w] == before[w]);
                            } else {
                                assert((groups@[n].tape_id@, groups@[n].archive_id) == read_key(self.tasks@[q]));
                            }
                        }
                    }
                }
            }
            i = i + 1;
        }
        proof {
            assert forall|q: int| 0 <= q < self.tasks@.len() && is_live(#[trigger] self.tasks@[q]) implies exists|g: int|
                0 <= g < groups@.len() && (groups@[g].tape_id@, groups@[g].archive_id) == read_key(self.tasks@[q])
                && groups@[g].tasks@.contains(q as usize) by {
                let g = choose|g: int| 0 <= g < groups@.len() && (groups@[g].tape_id@, groups@[g].archive_id) == read_key(self.tasks@[q]);
                assert(groups@[g].tasks@.contains(q as usize));
            }
        }
        groups
    }

    /// Fails live task `i`: its object returns to Cold with a Failed restore.
    fn fail_task(&mut self, store: &mut MetadataService, notifier: &mut NotificationService, i: usize, now: u64)
        requires
            old(store).wf(),
            old(self).consistent(old(store)),
            i < old(self).tasks@.len(),
        ensures
            final(store).wf(),
            final(self).consistent(final(store)),
            final(store).bundle_view() == old(store).bundle_view(),
            placement_kept(old(store)@, final(store)@),
            final(self).timeout() == old(self).timeout(),
            final(self).tasks@.len() == old(self).tasks@.len(),
            forall|j: int| 0 <= j < final(self).tasks@.len() && j != i ==> final(self).tasks@[j] == old(self).tasks@[j],
            is_live(old(self).tasks@[i as int]) ==> final(self).tasks@[i as int].status == RestoreStatus::Failed,
            final(self).tasks@[i as int] == (RecallTask { status: final(self).tasks@[i as int].status, ..old(self).tasks@[i as int] }),
            !is_live(old(self).tasks@[i as int]) ==> final(self).tasks@[i as int] == old(self).tasks@[i as int],
            forall|x: ObjectId| x != task_oid(old(self).tasks@[i as int]) && old(store)@.contains_key(x)
                ==> #[trigger] final(store)@[x] == old(store)@[x],
            final(self).offline_notified == old(self).offline_notified,
            final(notifier).queued().len() >= old(notifier).queued().len(),
            final(notifier).queued().subrange(0, old(notifier).queued().len() as int) == old(notifier).queued(),
            forall|q: int| old(notifier).queued().len() <= q < final(notifier).queued().len()
                ==> (#[trigger] final(notifier).queued()[q]) is RestoreFailed,
    {
        let ghost s0 = store@;
        if self.tasks[i].status == RestoreStatus::Pending {
            self.step(store, i, Transition::Picked, RestoreStatus::InProgress, now);
        }
        let ghost s1 = store@;
        proof { lemma_placement_refl(s0); }
        if self.tasks[i].status == RestoreStatus::InProgress {
            self.step(store, i, Transition::RestoreFail, RestoreStatus::Failed, now);
            let id = self.tasks[i].id;
            notifier.notify_restore_failed(id);
            proof { lemma_placement_trans(s0, s1, store@); }
        }
    }

    fn notified_offline(&self, tape_id: &String) -> (r: bool)
        ensures
            r == self.offline_alerted(tape_id@),
    {
        let mut i: usize = 0;
        while i < self.offline_notified.len()
            invariant
                i <= self.offline_notified@.len(),
                forall|j: int| 0 <= j < i ==> (#[trigger] self.offline_notified@[j])@ != tape_id@,
            decreases self.offline_notified.len() - i,
        {
            if self.offline_notified[i] == *tape_id {
                return true;
            }
            i = i + 1;
        }
        false
    }

    fn clear_offline(&mut self, tape_id: &String)
        ensures
            final(self).tasks@ == old(self).tasks@,
            final(self).restore_timeout_secs == old(self).restore_timeout_secs,
    {
        let mut kept: Vec<String> = Vec::new();
        let mut i: usize = 0;
        while i < self.offline_notified.len()
            decreases self.offline_notified.len() - i,
        {
            if self.offline_notified[i] != *tape_id {
                kept.push(self.offline_notified[i].clone());
            }
            i = i + 1;
        }
        self.offline_notified = kept;
    }

    /// The bytes of the first member `bucket`/`key` of a bundle, within the
    /// bytes `data` read for the whole bundle; the members follow each other
    /// with the given sizes.
    #[verifier::loop_isolation(false)]
    pub fn member_bytes(bundle_buckets: &Vec<String>, bundle_keys: &Vec<String>, sizes: &Vec<u64>, data: &Vec<u8>, bucket: &String, key: &String) -> (r: Option<Vec<u8>>)
        ensures
            r matches Some(b) ==> exists|j: int| 0 <= j < sizes@.len() && j < bundle_buckets@.len() && j < bundle_keys@.len()
                && bundle_buckets@[j]@ == bucket@ && bundle_keys@[j]@ == key@
                && range_sum(sizes@, 0, j) + sizes@[j] <= data@.len()
                && b@ == data@.subrange(range_sum(sizes@, 0, j), range_sum(sizes@, 0, j) + sizes@[j]),
            r is Some <==> has_member(bundle_buckets@, bundle_keys@, sizes@, data@.len() as int, bucket@, key@),
    {
        let dlen = data.len();
        let n = sizes.len();
        if bundle_buckets.len() != n || bundle_keys.len() != n {
            return None;
        }
        let mut start: u64 = 0;
        let mut j: usize = 0;
        while j < n
            invariant
                j <= n,
                start == range_sum(sizes@, 0, j as int),
                forall|q: int| 0 <= q < j ==> !member_at(bundle_buckets@, bundle_keys@, #[trigger] sizes@[q], q, bucket@, key@),
            decreases n - j,
        {
            let size = sizes[j];
            proof { crate::archive::lemma_range_sum_step(sizes@, 0, j as int); }
            if size > u64::MAX - start {
                proof {
                    assert forall|q: int| 0 <= q < n && member_at(bundle_buckets@, bundle_keys@, sizes@[q], q, bucket@, key@)
                        implies range_sum(sizes@, 0, q + 1) > data@.len() by {
                        if q >= j {
                            crate::archive::lemma_range_sum_grows(sizes@, 0, j + 1, q + 1);
                            assert(data@.len() == dlen);
                        }
                    }
                }
                return None;
            }
            if bundle_buckets[j] == *bucket && bundle_keys[j] == *key {
                if start + size > data.len() as u64 {
                    proof {
                        assert forall|q: int| 0 <= q < n && member_at(bundle_buckets@, bundle_keys@, sizes@[q], q, bucket@, key@)
                            implies range_sum(sizes@, 0, q + 1) > data@.len() by {
                            crate::archive::lemma_range_sum_grows(sizes@, 0, j + 1, q + 1);
                        }
                    }
                    return None;
                }
                proof {
                    assert(member_at(bundle_buckets@, bundle_keys@, sizes@[j as int], j as int, bucket@, key@));
                }
                let first = start as usize;
                let last = (start + size) as usize;
                let mut out: Vec<u8> = Vec::new();
                let mut p: usize = first;
                while p < last
                    invariant
                        first <= p <= last,
                        last <= data@.len(),
                        out@ == data@.subrange(first as int, p as int),
                    decreases last - p,
                {
                    out.push(data[p]);
                    assert(data@.subrange(first as int, p + 1) =~= data@.subrange(first as int, p as int).push(data@[p as int]));
                    p = p + 1;
                }
                return Some(out);
            }
            start = start + size;
            j = j + 1;
        }
        None
    }

    /// Runs the tasks of one read group. If the tape is not Online, the tape
    /// is reported offline once, the tasks wait as InProgress, and those older
    /// than the restore timeout fail. If it is Online, the bundle is read with
    /// a single positioned read and checked against its recorded checksum,
    /// each member is put into the cache, and each
    /// task completes with its object RestoreReady until `days` days from
    /// now; a task whose bytes cannot be staged fails. Returns the number of
    /// tasks completed.
    #[verifier::loop_isolation(false)]
    #[verifier::rlimit(100)]
    pub fn execute_recall(
        &mut self,
        store: &mut MetadataService,
        tapes: &mut TapeManager,
        cache: &mut CacheManager,
        notifier: &mut NotificationService,
        group: &ReadGroup,
        now: u64,
    ) -> (r: usize)
        requires
            old(store).wf(),
            old(tapes).wf(),
            old(cache).wf(),
            old(self).consistent(old(store)),
        ensures
            final(store).wf(),
            final(tapes).wf(),
            final(cache).wf(),
            final(self).consistent(final(store)),
            final(store).bundle_view() == old(store).bundle_view(),
            placement_kept(old(store)@, final(store)@),
            final(self).timeout() == old(self).timeout(),
            final(self).tasks().len() == old(self).tasks().len(),
            final(cache).max_size() == old(cache).max_size(),
            final(tapes).others_same(old(tapes), group.tape_id@),
            forall|t: Seq<char>| #[trigger] final(tapes).has_tape(t) <==> old(tapes).has_tape(t),
            old(tapes).has_tape(group.tape_id@) ==> final(tapes).reads(group.tape_id@) <= old(tapes).reads(group.tape_id@) + 1
                && final(tapes).written(group.tape_id@) == old(tapes).written(group.tape_id@)
                && final(tapes).status(group.tape_id@) == old(tapes).status(group.tape_id@),
            r <= group.tasks@.len(),
            forall|j: int| 0 <= j < final(self).tasks().len() && !is_live(old(self).tasks()[j])
                ==> #[trigger] final(self).tasks()[j] == old(self).tasks()[j],
            !(old(tapes).has_tape(group.tape_id@) && old(tapes).status(group.tape_id@) == TapeStatus::Online) ==> {
                &&& r == 0
                &&& forall|j: int| 0 <= j < final(self).tasks().len() ==> (#[trigger] final(self).tasks()[j]).status != RestoreStatus::Completed
                    || old(self).tasks()[j].status == RestoreStatus::Completed
            },
            old(tapes).has_tape(group.tape_id@) && old(tapes).status(group.tape_id@) == TapeStatus::Online ==>
                forall|k: int| 0 <= k < group.tasks@.len() && #[trigger] group.tasks@[k] < final(self).tasks().len()
                    ==> !is_live(final(self).tasks()[group.tasks@[k] as int]),
            forall|j: int| 0 <= j < final(self).tasks().len() && (#[trigger] final(self).tasks()[j]).status == RestoreStatus::Completed
                && old(self).tasks()[j].status != RestoreStatus::Completed ==> ready_until(final(store)@, task_oid(old(self).tasks()[j]),
                window_end(now, old(self).tasks()[j].days)),
            forall|j: int| 0 <= j < final(self).tasks().len() ==> #[trigger] final(self).tasks()[j]
                == (RecallTask { status: final(self).tasks()[j].status, ..old(self).tasks()[j] }),
            forall|j: int| 0 <= j < final(self).tasks().len() && !group.tasks@.contains(j as usize)
                ==> #[trigger] final(self).tasks()[j] == old(self).tasks()[j],
            forall|x: ObjectId| old(store)@.contains_key(x) && !restoring(old(store)@, x) ==> #[trigger] final(store)@[x] == old(store)@[x],
            !(old(tapes).has_tape(group.tape_id@) && old(tapes).status(group.tape_id@) == TapeStatus::Online) ==> {
                let n0 = old(notifier).queued().len();
                &&& final(self).offline_alerted(group.tape_id@)
                &&& final(notifier).queued().len() >= n0
                &&& final(notifier).queued().subrange(0, n0 as int) == old(notifier).queued()
                &&& !old(self).offline_alerted(group.tape_id@) ==> (final(notifier).queued()[n0 as int] matches
                    Notification::TapeOffline { tape_id, archive_ids } && tape_id@ == group.tape_id@ && archive_ids@ == seq![group.archive_id])
                &&& old(self).offline_alerted(group.tape_id@) ==> forall|q: int| n0 <= q < final(notifier).queued().len()
                    ==> (#[trigger] final(notifier).queued()[q]) is RestoreFailed
                &&& forall|k: int| 0 <= k < group.tasks@.len() && (#[trigger] group.tasks@[k]) < old(self).tasks().len() ==> {
                    let t = old(self).tasks()[group.tasks@[k] as int];
                    (is_live(t) && now >= t.created_at && now - t.created_at >= old(self).timeout())
                        ==> final(self).tasks()[group.tasks@[k] as int].status == RestoreStatus::Failed
                }
            },
            bundle_readable(old(store), old(tapes), group) ==> forall|k: int| 0 <= k < group.tasks@.len()
                && (#[trigger] group.tasks@[k]) < old(self).tasks().len() && is_live(old(self).tasks()[group.tasks@[k] as int])
                && stageable(old(store).bundle_view()[group.archive_id], old(self).tasks()[group.tasks@[k] as int], old(cache).max_size())
                ==> final(self).tasks()[group.tasks@[k] as int].status == RestoreStatus::Completed,
    {
        let ghost s0 = store@;
        proof { lemma_placement_refl(s0); }
        let online = match tapes.tape_status(&group.tape_id) {
            Ok(TapeStatus::Online) => true,
            _ => false,
        };
        let n = self.tasks.len();
        if !online {
            let ghost q0 = notifier.queued();
            if !self.notified_offline(&group.tape_id) {
                let mut ids: Vec<u128> = Vec::new();
                ids.push(group.archive_id);
                assert(ids@ =~= seq![group.archive_id]);
                notifier.notify_offline_tape(&group.tape_id, ids);
                let ghost before = self.offline_notified@;
                self.offline_notified.push(group.tape_id.clone());
                assert(self.offline_notified@[before.len() as int]@ == group.tape_id@);
            }
            let ghost q1 = notifier.queued();
            let mut k: usize = 0;
            while k < group.tasks.len()
                invariant
                    store.wf(),
                    self.consistent(store),
                    store.bundle_view() == old(store).bundle_view(),
                    placement_kept(s0, store@),
                    self.timeout() == old(self).timeout(),
                    self.tasks@.len() == n,
                    n == old(self).tasks@.len(),
                    forall|j: int| 0 <= j < n && !is_live(old(self).tasks@[j]) ==> #[trigger] self.tasks@[j] == old(self).tasks@[j],
                    forall|j: int| 0 <= j < n ==> (#[trigger] self.tasks@[j]).status != RestoreStatus::Completed
                        || old(self).tasks@[j].status == RestoreStatus::Completed,
                    forall|j: int| 0 <= j < n ==> #[trigger] self.tasks@[j] == (RecallTask { status: self.tasks@[j].status, ..old(self).tasks@[j] }),
                    forall|j: int| 0 <= j < n && !group.tasks@.contains(j as usize) ==> #[trigger] self.tasks@[j] == old(self).tasks@[j],
                    forall|x: ObjectId| s0.contains_key(x) && !restoring(s0, x) ==> #[trigger] store@[x] == s0[x],
                    k <= group.tasks@.len(),
                    self.offline_alerted(group.tape_id@),
                    notifier.queued().len() >= q1.len(),
                    notifier.queued().subrange(0, q1.len() as int) == q1,
                    forall|q: int| q1.len() <= q < notifier.queued().len() ==> (#[trigger] notifier.queued()[q]) is RestoreFailed,
                    forall|j: int| 0 <= j < n && is_live(old(self).tasks@[j]) && !is_live(#[trigger] self.tasks@[j])
                        ==> self.tasks@[j].status == RestoreStatus::Failed,
                    forall|q: int| 0 <= q < k && (#[trigger] group.tasks@[q]) < n ==> {
                        let t = old(self).tasks@[group.tasks@[q] as int];
                        (is_live(t) && now >= t.created_at && now - t.created_at >= old(self).restore_timeout_secs)
                            ==> self.tasks@[group.tasks@[q] as int].status == RestoreStatus::Failed
                    },
                decreases group.tasks.len() - k,
            {
                let i = group.tasks[k];
                let ghost qa = notifier.queued();
                let ghost ta = self.tasks@;
                if i < self.tasks.len() {
                    let ghost sa = store@;
                    if self.tasks[i].status == RestoreStatus::Pending {
                        self.step(store, i, Transition::Picked, RestoreStatus::InProgress, now);
                        proof { lemma_placement_trans(s0, sa, store@); }
                    }
                    let ghost sb = store@;
                    let created = self.tasks[i].created_at;
                    if self.tasks[i].status == RestoreStatus::InProgress && now >= created
                        && now - created >= self.restore_timeout_secs {
                        self.fail_task(store, notifier, i, now);
                        proof { lemma_placement_trans(s0, sb, store@); }
                    }
                }
                proof {
                    assert forall|q: int| q1.len() <= q < notifier.queued().len() implies (#[trigger] notifier.queued()[q]) is RestoreFailed by {
                        if q < qa.len() {
                            assert(notifier.queued()[q] == notifier.queued().subrange(0, qa.len() as int)[q]);
                        }
                    }
                    assert(notifier.queued().subrange(0, q1.len() as int) =~= q1) by {
                        assert forall|q: int| 0 <= q < q1.len() implies notifier.queued()[q] == q1[q] by {
                            assert(notifier.queued()[q] == notifier.queued().subrange(0, qa.len() as int)[q]);
                            assert(qa[q] == qa.subrange(0, q1.len() as int)[q]);
                        }
                    }
                    assert forall|j: int| 0 <= j < n && is_live(old(self).tasks@[j]) && !is_live(#[trigger] self.tasks@[j])
                        implies self.tasks@[j].status == RestoreStatus::Failed by {
                        if j != i as int {
                            assert(self.tasks@[j] == ta[j]);
                        }
                    }
                    assert forall|q: int| 0 <= q < k + 1 && (#[trigger] group.tasks@[q]) < n implies {
                        let t = old(self).tasks@[group.tasks@[q] as int];
                        (is_live(t) && now >= t.created_at && now - t.created_at >= old(self).restore_timeout_secs)
                            ==> self.tasks@[group.tasks@[q] as int].status == RestoreStatus::Failed
                    } by {
                        let j = group.tasks@[q] as int;
                        if j != i as int {
                            assert(self.tasks@[j] == ta[j]);
                        } else {
                            assert(ta[j] == (RecallTask { status: ta[j].status, ..old(self).tasks@[j] }));
                        }
                    }
                }
                k = k + 1;
            }
            proof {
                assert(notifier.queued().subrange(0, q0.len() as int) =~= q0) by {
                    assert forall|q: int| 0 <= q < q0.len() implies notifier.queued()[q] == q0[q] by {
                        assert(notifier.queued()[q] == notifier.queued().subrange(0, q1.len() as int)[q]);
                    }
                }
                if !old(self).offline_alerted(group.tape_id@) {
                    assert(notifier.queued()[q0.len() as int] == notifier.queued().subrange(0, q1.len() as int)[q0.len() as int]);
                }
            }
            return 0;
        }
        self.clear_offline(&group.tape_id);
        let located = match store.get_bundle(group.archive_id) {
            Some(b) => Some((b.offset, b.total_size, b.checksum, crate::lifecycle::copy_strings(&b.buckets),
                crate::lifecycle::copy_strings(&b.object_keys), copy_sizes(&b.sizes))),
            None => None,
        };
        // one positioned read for the whole bundle, verified against its checksum
        let data = match located {
            Some((offset, total, sum, buckets, keys, sizes)) => match tapes.read(&group.tape_id, offset, total) {
                Ok(d) => if crate::tape::checksum_extend(0, &d) == sum { Some((d, buckets, keys, sizes)) } else { None },
                Err(_) => None,
            },
            None => None,
        };
        let ghost bb = old(store).bundle_view()[group.archive_id];
        proof {
            if bundle_readable(old(store), old(tapes), group) {
                let d = data.unwrap().0;
                assert(d@ == old(tapes).written(group.tape_id@).subrange(bb.offset as int, bb.offset + bb.total_size));
                vstd::arithmetic::div_mod::lemma_small_mod(0, 0x1_0000_0000_0000_0000);
            }
        }
        let mut done: usize = 0;
        let mut k: usize = 0;
        while k < group.tasks.len()
            invariant
                store.wf(),
                cache.wf(),
                self.consistent(store),
                store.bundle_view() == old(store).bundle_view(),
                placement_kept(s0, store@),
                self.timeout() == old(self).timeout(),
                self.tasks@.len() == n,
                cache.max_size() == old(cache).max_size(),
                done <= k,
                k <= group.tasks@.len(),
                n == old(self).tasks@.len(),
                forall|j: int| 0 <= j < n && !is_live(old(self).tasks@[j]) ==> #[trigger] self.tasks@[j] == old(self).tasks@[j],
                forall|q: int| 0 <= q < k && #[trigger] group.tasks@[q] < n ==> !is_live(self.tasks@[group.tasks@[q] as int]),
                forall|j: int| 0 <= j < n && (#[trigger] self.tasks@[j]).status == RestoreStatus::Completed
                    && old(self).tasks@[j].status != RestoreStatus::Completed ==> ready_until(store@, task_oid(old(self).tasks@[j]),
                    window_end(now, old(self).tasks@[j].days)),
                forall|j: int| 0 <= j < n ==> #[trigger] self.tasks@[j] == (RecallTask { status: self.tasks@[j].status, ..old(self).tasks@[j] }),
                forall|j: int| 0 <= j < n && !group.tasks@.contains(j as usize) ==> #[trigger] self.tasks@[j] == old(self).tasks@[j],
                forall|x: ObjectId| s0.contains_key(x) && !restoring(s0, x) ==> #[trigger] store@[x] == s0[x],
                bundle_readable(old(store), old(tapes), group) ==> forall|j: int| 0 <= j < n && is_live(old(self).tasks@[j])
                    && stageable(bb, old(self).tasks@[j], old(cache).max_size()) && !is_live(#[trigger] self.tasks@[j])
                    ==> self.tasks@[j].status == RestoreStatus::Completed,
            decreases group.tasks.len() - k,
        {
            let i = group.tasks[k];
            let ghost tb = self.tasks@;
            if i < self.tasks.len() {
                let live = self.tasks[i].status == RestoreStatus::Pending || self.tasks[i].status == RestoreStatus::InProgress;
                if live {
                    let ghost sa = store@;
                    let ghost t1 = self.tasks@;
                    let ghost want = bundle_readable(old(store), old(tapes), group)
                        && stageable(bb, old(self).tasks@[i as int], old(cache).max_size());
                    proof {
                        if want {
                            assert(tb[i as int] == (RecallTask { status: tb[i as int].status, ..old(self).tasks@[i as int] }));
                        }
                    }
                    let staged = match &data {
                        Some((d, buckets, keys, sizes)) => {
                            proof {
                                if want {
                                    assert(buckets@ == bb.buckets@ && keys@ == bb.object_keys@ && sizes@ == bb.sizes@);
                                    assert(d@.len() == bb.total_size);
                                    assert(has_member(buckets@, keys@, sizes@, d@.len() as int, self.tasks@[i as int].bucket@,
                                        self.tasks@[i as int].object_key@));
                                }
                            }
                            match Self::member_bytes(buckets, keys, sizes, d, &self.tasks[i].bucket, &self.tasks[i].object_key) {
                                Some(bytes) => {
                                    proof {
                                        if want {
                                            let q = choose|q: int| 0 <= q < sizes@.len() && q < buckets@.len() && q < keys@.len()
                                                && buckets@[q]@ == self.tasks@[i as int].bucket@ && keys@[q]@ == self.tasks@[i as int].object_key@
                                                && range_sum(sizes@, 0, q) + sizes@[q] <= d@.len()
                                                && bytes@ == d@.subrange(range_sum(sizes@, 0, q), range_sum(sizes@, 0, q) + sizes@[q]);
                                            assert(bb.sizes@[q] <= old(cache).max_size());
                                            crate::archive::lemma_range_sum_nonneg(sizes@, 0, q);
                                            assert(bytes@.len() == sizes@[q]);
                                            assert(bytes@.len() <= cache.max_size());
                                        }
                                    }
                                    let ck = cache_key_of(&self.tasks[i].bucket, &self.tasks[i].object_key);
                                    cache.put(ck.as_str(), bytes, now).is_ok()
                                },
                                None => false,
                            }
                        },
                        None => false,
                    };
                    proof {
                        if bundle_readable(old(store), old(tapes), group) && stageable(bb, old(self).tasks@[i as int], old(cache).max_size()) {
                            assert(tb[i as int] == (RecallTask { status: tb[i as int].status, ..old(self).tasks@[i as int] }));
                            assert(data is Some);
                            assert(staged);
                        }
                    }
                    if staged {
                        if self.tasks[i].status == RestoreStatus::Pending {
                            self.step(store, i, Transition::Picked, RestoreStatus::InProgress, now);
                        }
                        let ghost sb = store@;
                        proof { lemma_placement_trans(s0, sa, sb); }
                        let expire_at = window_end_of(now, self.tasks[i].days);
                        self.step(store, i, Transition::RestoreOk { expire_at }, RestoreStatus::Completed, now);
                        proof { lemma_placement_trans(s0, sb, store@); }
                        let id = self.tasks[i].id;
                        notifier.notify_restore_completed(id);
                        done = done + 1;
                    } else {
                        self.fail_task(store, notifier, i, now);
                        proof { lemma_placement_trans(s0, sa, store@); }
                    }
                    proof {
                        let t0 = old(self).tasks@;
                        assert(is_live(t0[i as int]));
                        if bundle_readable(old(store), old(tapes), group) {
                            assert forall|j: int| 0 <= j < n && is_live(t0[j])
                                && stageable(bb, t0[j], old(cache).max_size()) && !is_live(#[trigger] self.tasks@[j])
                                implies self.tasks@[j].status == RestoreStatus::Completed by {
                                if j != i as int {
                                    assert(self.tasks@[j] == tb[j]);
                                }
                            }
                        }
                        assert forall|j: int| 0 <= j < n && (#[trigger] self.tasks@[j]).status == RestoreStatus::Completed
                            && t0[j].status != RestoreStatus::Completed implies ready_until(store@, task_oid(t0[j]),
                            window_end(now, t0[j].days)) by {
                            if j != i {
                                assert(self.tasks@[j] == t1[j]);
                                assert(is_live(t0[j]));
                                assert(task_oid(t0[j]) != task_oid(t0[i as int]));
                                assert(sa.contains_key(task_oid(t0[j])));
                            }
                        }
                    }
                }
            }
            k = k + 1;
        }
        done
    }

    /// Runs every live task, one read group at a time. Every task that was
    /// live and whose tape is Online ends Completed or Failed; a task that
    /// completes leaves its object RestoreReady for `days` days from `now`;
    /// tasks that were done stay as they were. Returns the number of tasks
    /// completed.
    #[verifier::loop_isolation(false)]
    pub fn run_pending(
        &mut self,
        store: &mut MetadataService,
        tapes: &mut TapeManager,
        cache: &mut CacheManager,
        notifier: &mut NotificationService,
        now: u64,
    ) -> (r: usize)
        requires
            old(store).wf(),
            old(tapes).wf(),
            old(cache).wf(),
            old(self).consistent(old(store)),
        ensures
            final(store).wf(),
            final(tapes).wf(),
            final(cache).wf(),
            final(self).consistent(final(store)),
            final(store).bundle_view() == old(store).bundle_view(),
            placement_kept(old(store)@, final(store)@),
            final(cache).max_size() == old(cache).max_size(),
            old(store).cold_backed() ==> final(store).cold_backed(),
            final(self).tasks().len() == old(self).tasks().len(),
            forall|j: int| 0 <= j < final(self).tasks().len() && !is_live(old(self).tasks()[j])
                ==> #[trigger] final(self).tasks()[j] == old(self).tasks()[j],
            forall|j: int| 0 <= j < final(self).tasks().len() && (#[trigger] final(self).tasks()[j]).status == RestoreStatus::Completed
                && old(self).tasks()[j].status != RestoreStatus::Completed ==> ready_until(final(store)@, task_oid(old(self).tasks()[j]),
                window_end(now, old(self).tasks()[j].days)),
            forall|j: int| 0 <= j < final(self).tasks().len() && is_live(old(self).tasks()[j])
                && old(tapes).has_tape(old(self).tasks()[j].tape_id@) && old(tapes).status(old(self).tasks()[j].tape_id@) == TapeStatus::Online
                ==> !is_live(#[trigger] final(self).tasks()[j]),
            forall|j: int| 0 <= j < final(self).tasks().len() && is_live(old(self).tasks()[j])
                && readable_at(old(store), old(tapes), old(self).tasks()[j].tape_id@, old(self).tasks()[j].archive_id)
                && stageable(old(store).bundle_view()[old(self).tasks()[j].archive_id], old(self).tasks()[j], old(cache).max_size())
                ==> (#[trigger] final(self).tasks()[j]).status == RestoreStatus::Completed,
    {
        let groups = self.merge_tasks_by_tape();
        let ghost s0 = store@;
        let ghost t0 = self.tasks@;
        let ghost p0 = *tapes;
        proof { lemma_placement_refl(s0); }
        let n = self.tasks.len();
        let mut done: usize = 0;
        let mut g: usize = 0;
        while g < groups.len()
            invariant
                store.wf(),
                tapes.wf(),
                cache.wf(),
                self.consistent(store),
                store.bundle_view() == old(store).bundle_view(),
                placement_kept(s0, store@),
                s0 == old(store)@,
                t0 == old(self).tasks@,
                p0 == *old(tapes),
                cache.max_size() == old(cache).max_size(),
                g <= groups@.len(),
                self.tasks@.len() == n,
                n == t0.len(),
                forall|t: Seq<char>| #[trigger] tapes.has_tape(t) <==> p0.has_tape(t),
                forall|t: Seq<char>| p0.has_tape(t) ==> #[trigger] tapes.status(t) == p0.status(t),
                forall|t: Seq<char>| p0.has_tape(t) ==> #[trigger] tapes.written(t) == p0.written(t),
                forall|h: int, k: int| 0 <= h < g && 0 <= k < groups@[h].tasks@.len() && (#[trigger] groups@[h].tasks@[k]) < n
                    && is_live(t0[groups@[h].tasks@[k] as int])
                    && readable_at(old(store), &p0, t0[groups@[h].tasks@[k] as int].tape_id@, t0[groups@[h].tasks@[k] as int].archive_id)
                    && stageable(old(store).bundle_view()[t0[groups@[h].tasks@[k] as int].archive_id], t0[groups@[h].tasks@[k] as int], old(cache).max_size())
                    ==> self.tasks@[groups@[h].tasks@[k] as int].status == RestoreStatus::Completed,
                forall|j: int| 0 <= j < n && !is_live(t0[j]) ==> #[trigger] self.tasks@[j] == t0[j],
                forall|j: int| 0 <= j < n ==> #[trigger] self.tasks@[j] == (RecallTask { status: self.tasks@[j].status, ..t0[j] }),
                forall|j: int| 0 <= j < n && (#[trigger] self.tasks@[j]).status == RestoreStatus::Completed
                    && t0[j].status != RestoreStatus::Completed ==> ready_until(store@, task_oid(t0[j]), window_end(now, t0[j].days)),
                forall|h: int, k: int| 0 <= h < g && 0 <= k < groups@[h].tasks@.len() && (#[trigger] groups@[h].tasks@[k]) < n
                    && p0.has_tape(groups@[h].tape_id@) && p0.status(groups@[h].tape_id@) == TapeStatus::Online
                    ==> !is_live(self.tasks@[groups@[h].tasks@[k] as int]),
                forall|j: int| 0 <= j < n && (forall|h: int| 0 <= h < g ==> !(#[trigger] groups@[h].tasks@.contains(j as usize)))
                    ==> #[trigger] self.tasks@[j] == t0[j],
            decreases groups.len() - g,
        {
            let ghost sa = store@;
            let ghost ta = self.tasks@;
            let ghost sa_st = *store;
            let ghost pa = *tapes;
            let c = self.execute_recall(store, tapes, cache, notifier, &groups[g], now);
            proof {
                lemma_placement_trans(s0, sa, store@);
                let gr = groups@[g as int];
                assert forall|t: Seq<char>| p0.has_tape(t) implies #[trigger] tapes.written(t) == p0.written(t) by {
                    assert(pa.has_tape(t));
                    assert(pa.written(t) == p0.written(t));
                    if t != gr.tape_id@ {
                        assert(tapes.has_tape(t) <==> pa.has_tape(t));
                        assert(tapes.slot(t) == pa.slot(t));
                    }
                }
                assert forall|h: int, k: int| 0 <= h < g + 1 && 0 <= k < groups@[h].tasks@.len() && (#[trigger] groups@[h].tasks@[k]) < n
                    && is_live(t0[groups@[h].tasks@[k] as int])
                    && readable_at(old(store), &p0, t0[groups@[h].tasks@[k] as int].tape_id@, t0[groups@[h].tasks@[k] as int].archive_id)
                    && stageable(old(store).bundle_view()[t0[groups@[h].tasks@[k] as int].archive_id], t0[groups@[h].tasks@[k] as int], old(cache).max_size())
                    implies self.tasks@[groups@[h].tasks@[k] as int].status == RestoreStatus::Completed by {
                    let j = groups@[h].tasks@[k] as int;
                    if h < g {
                        assert(!is_live(ta[j]));
                    } else {
                        assert(ta[j] == t0[j]) by {
                            assert forall|h2: int| 0 <= h2 < g implies !(#[trigger] groups@[h2].tasks@.contains(j as usize)) by {
                                if groups@[h2].tasks@.contains(j as usize) {
                                    let k2 = choose|k2: int| 0 <= k2 < groups@[h2].tasks@.len() && groups@[h2].tasks@[k2] == j as usize;
                                    assert(read_key(t0[j]) == (groups@[h2].tape_id@, groups@[h2].archive_id));
                                    assert(read_key(t0[j]) == (gr.tape_id@, gr.archive_id));
                                }
                            }
                        }
                        assert(read_key(t0[j]) == (gr.tape_id@, gr.archive_id));
                        assert(pa.has_tape(gr.tape_id@));
                        assert(pa.status(gr.tape_id@) == p0.status(gr.tape_id@));
                        assert(pa.written(gr.tape_id@) == p0.written(gr.tape_id@));
                        assert(bundle_readable(&sa_st, &pa, &gr));
                        assert(k < gr.tasks@.len() && gr.tasks@[k] == j as usize);
                    }
                }
                assert forall|t: Seq<char>| p0.has_tape(t) implies #[trigger] tapes.status(t) == p0.status(t) by {
                    assert(pa.has_tape(t));
                    assert(pa.status(t) == p0.status(t));
                    if t != gr.tape_id@ {
                        assert(tapes.has_tape(t) <==> pa.has_tape(t));
                        assert(tapes.slot(t) == pa.slot(t));
                    }
                }
                assert forall|j: int| 0 <= j < n && (#[trigger] self.tasks@[j]).status == RestoreStatus::Completed
                    && t0[j].status != RestoreStatus::Completed implies ready_until(store@, task_oid(t0[j]), window_end(now, t0[j].days)) by {
                    assert(self.tasks@[j] == (RecallTask { status: self.tasks@[j].status, ..ta[j] }));
                    if ta[j].status == RestoreStatus::Completed {
                        assert(ready_until(sa, task_oid(t0[j]), window_end(now, t0[j].days)));
                        assert(!restoring(sa, task_oid(t0[j])));
                    }
                }
                assert forall|h: int, k: int| 0 <= h < g + 1 && 0 <= k < groups@[h].tasks@.len() && (#[trigger] groups@[h].tasks@[k]) < n
                    && p0.has_tape(groups@[h].tape_id@) && p0.status(groups@[h].tape_id@) == TapeStatus::Online
                    implies !is_live(self.tasks@[groups@[h].tasks@[k] as int]) by {
                    if h < g {
                        let j = groups@[h].tasks@[k] as int;
                        assert(!is_live(ta[j]));
                    } else {
                        assert(pa.has_tape(gr.tape_id@));
                    }
                }
                assert forall|j: int| 0 <= j < n && (forall|h: int| 0 <= h < g + 1 ==> !(#[trigger] groups@[h].tasks@.contains(j as usize)))
                    implies #[trigger] self.tasks@[j] == t0[j] by {
                    assert(!gr.tasks@.contains(j as usize));
                    assert(forall|h: int| 0 <= h < g ==> !(#[trigger] groups@[h].tasks@.contains(j as usize)));
                }
            }
            done = if c > usize::MAX - done { usize::MAX } else { done + c };
            g = g + 1;
        }
        proof {
            if old(store).cold_backed() {
                assert forall|id: ObjectId| #[trigger] store@.contains_key(id) && store@[id].storage_class == StorageClass::Cold
                    implies (store@[id].archive_id matches Some(a) && store.bundle_view().contains_key(a)
                    && store.bundle_view()[a].status == crate::models::ArchiveBundleStatus::Completed) by {
                    assert(s0.contains_key(id));
                }
            }
            assert forall|j: int| 0 <= j < n && is_live(t0[j]) && p0.has_tape(t0[j].tape_id@)
                && p0.status(t0[j].tape_id@) == TapeStatus::Online implies !is_live(#[trigger] self.tasks@[j]) by {
                let gi = choose|gi: int| 0 <= gi < groups@.len() && (groups@[gi].tape_id@, groups@[gi].archive_id) == read_key(t0[j])
                    && groups@[gi].tasks@.contains(j as usize);
                let k = choose|k: int| 0 <= k < groups@[gi].tasks@.len() && groups@[gi].tasks@[k] == j as usize;
                assert(groups@[gi].tasks@[k] < n);
            }
        }
        done
    }
}

/// A copy of a list of sizes.
fn copy_sizes(v: &Vec<u64>) -> (r: Vec<u64>)
    ensures
        r@ == v@,
{
    let mut r: Vec<u64> = Vec::new();
    let mut i: usize = 0;
    while i < v.len()
        invariant
            i <= v.len(),
            r@ == v@.subrange(0, i as int),
        decreases v.len() - i,
    {
        r.push(v[i]);
        i = i + 1;
    }
    assert(r@ =~= v@);
    r
}


/// No object is the target of two live recall tasks.
pub proof fn lemma_single_live_task(sched: &RecallScheduler, store: &MetadataService, i: int, j: int)
    requires
        sched.consistent(store),
        0 <= i < sched.tasks().len(),
        0 <= j < sched.tasks().len(),
        i != j,
        is_live(sched.tasks()[i]),
        is_live(sched.tasks()[j]),
    ensures
        task_oid(sched.tasks()[i]) != task_oid(sched.tasks()[j]),
{
}

} // verus!
