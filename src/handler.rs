use vstd::prelude::*;
use crate::archive::{archived_or_unchanged, ArchiveScheduler};
use crate::cache::{has_key, live, CacheManager};
use crate::error::{Error, Result};
use crate::hot::HotStore;
use crate::lifecycle::{is_after, restorable, st, state_of, ObjectState, Transition};
use crate::metadata::{oid, owned, MetadataService, ObjectId};
use crate::models::{ObjectMetadata, RecallTask, RestoreStatus, StorageClass, TapeStatus};
use crate::notification::NotificationService;
use crate::recall::{cache_key, cache_key_of, is_live, placement_kept, readable_at, ready_until, stageable, task_oid, window_end, RecallScheduler};
use crate::tape::TapeManager;

verus! {

/// The restore window of a record has ended by `now` (or has no end set).
pub open spec fn window_passed(m: ObjectMetadata, now: u64) -> bool {
    match m.restore_expire_at {
        Some(e) => e <= now,
        None => true,
    }
}

/// Whether a cold record has an open restore window at `now`.
pub open spec fn window_open(m: ObjectMetadata, now: u64) -> bool {
    &&& m.restore_status == Some(RestoreStatus::Completed)
    &&& m.restore_expire_at is Some
    &&& m.restore_expire_at.unwrap() > now
}

/// The object-storage verbs over the whole service: metadata, hot tier,
/// restore cache, tape library and the two schedulers.
pub struct S3Handler {
    pub metadata: MetadataService,
    pub hot: HotStore,
    pub cache: CacheManager,
    pub tapes: TapeManager,
    pub archive: ArchiveScheduler,
    pub recall: RecallScheduler,
    pub notifier: NotificationService,
}

impl S3Handler {
    pub open spec fn wf(&self) -> bool {
        &&& self.metadata.wf()
        &&& self.hot.wf()
        &&& self.cache.wf()
        &&& self.tapes.wf()
        &&& self.recall.consistent(&self.metadata)
    }

    /// A service over fresh metadata and hot tiers.
    pub fn new(
        cache: CacheManager,
        tapes: TapeManager,
        archive: ArchiveScheduler,
        recall: RecallScheduler,
        notifier: NotificationService,
    ) -> (r: Self)
        requires
            cache.wf(),
            tapes.wf(),
            recall.tasks().len() == 0,
        ensures
            r.wf(),
            r.metadata@ == Map::<ObjectId, ObjectMetadata>::empty(),
            r.metadata.cold_backed(),
    {
        let r = S3Handler { metadata: MetadataService::new(), hot: HotStore::new(), cache, tapes, archive, recall, notifier };
        r
    }

    /// PUT: stores `data` on the hot tier as `bucket`/`key`, Hot, created or
    /// replaced at `now`. An object that is not Hot cannot be replaced:
    /// `InvalidObjectState`.
    pub fn put_object(&mut self, bucket: &str, key: &str, data: Vec<u8>, now: u64) -> (r: Result<()>)
        requires
            old(self).wf(),
        ensures
            final(self).wf(),
            old(self).metadata.cold_backed() ==> final(self).metadata.cold_backed(),
            (old(self).metadata@.contains_key((bucket@, key@))
                && old(self).metadata@[(bucket@, key@)].storage_class != StorageClass::Hot)
                <==> (r matches Err(Error::InvalidObjectState(_))),
            r is Err ==> final(self).metadata@ == old(self).metadata@ && final(self).hot@ == old(self).hot@,
            !(old(self).metadata@.contains_key((bucket@, key@)) && old(self).metadata@[(bucket@, key@)].storage_class != StorageClass::Hot)
                ==> r is Ok,
            r is Ok ==> {
                &&& final(self).hot@ == old(self).hot@.insert((bucket@, key@), data@)
                &&& final(self).metadata@.contains_key((bucket@, key@))
                &&& final(self).metadata@[(bucket@, key@)].storage_class == StorageClass::Hot
                &&& final(self).metadata@[(bucket@, key@)].restore_status is None
                &&& final(self).metadata@[(bucket@, key@)].archive_id is None
                &&& final(self).metadata@[(bucket@, key@)].restore_expire_at is None
                &&& final(self).metadata@[(bucket@, key@)].size == data@.len()
                &&& final(self).metadata@ == old(self).metadata@.insert((bucket@, key@), final(self).metadata@[(bucket@, key@)])
            },
    {
        let created = match self.metadata.get_object(bucket, key) {
            Ok(m) => {
                if m.storage_class != StorageClass::Hot {
                    return Err(Error::InvalidObjectState("only hot objects can be replaced".to_owned()));
                }
                m.created_at
            },
            Err(_) => now,
        };
        let record = ObjectMetadata {
            bucket: owned(bucket),
            object_key: owned(key),
            version: None,
            storage_class: StorageClass::Hot,
            archive_id: None,
            tape_id: None,
            tape_set: None,
            checksum: String::new(),
            size: data.len() as u64,
            restore_status: None,
            restore_expire_at: None,
            created_at: created,
            updated_at: now,
        };
        let ghost before = self.metadata@;
        self.metadata.put_object(record);
        self.hot.put(bucket, key, data);
        proof {
            let id = (bucket@, key@);
            let ts = self.recall.tasks();
            assert forall|i: int| 0 <= i < ts.len() && crate::recall::is_live(#[trigger] ts[i])
                implies crate::recall::restoring(self.metadata@, crate::recall::task_oid(ts[i]))
                && self.metadata@[crate::recall::task_oid(ts[i])].restore_status == Some(ts[i].status) by {
                assert(crate::recall::restoring(before, crate::recall::task_oid(ts[i])));
            }
            if old(self).metadata.cold_backed() {
                assert forall|x: ObjectId| #[trigger] self.metadata@.contains_key(x) && self.metadata@[x].storage_class == StorageClass::Cold
                    implies (self.metadata@[x].archive_id matches Some(a) && self.metadata.bundle_view().contains_key(a)
                    && self.metadata.bundle_view()[a].status == crate::models::ArchiveBundleStatus::Completed) by {
                    if x != id {
                        assert(before.contains_key(x));
                    }
                }
            }
        }
        Ok(())
    }

    /// GET at time `now`: the bytes of `bucket`/`key`. Objects that are not
    /// Cold are read from the hot tier. A Cold object is read from the restore
    /// cache while its restore window is open and its cache entry is live;
    /// otherwise `InvalidObjectState`, as a restore is required.
    pub fn get_object(&mut self, bucket: &str, key: &str, now: u64) -> (r: Result<Vec<u8>>)
        requires
            old(self).wf(),
        ensures
            final(self).wf(),
            final(self).metadata == old(self).metadata,
            final(self).hot == old(self).hot,
            final(self).cache.max_size() == old(self).cache.max_size(),
            final(self).cache.ttl() == old(self).cache.ttl(),
            !old(self).metadata@.contains_key((bucket@, key@)) ==> (r matches Err(Error::ObjectNotFound)),
            old(self).metadata@.contains_key((bucket@, key@)) ==> {
                let m = old(self).metadata@[(bucket@, key@)];
                let ck = cache_key(bucket@, key@);
                &&& (m.storage_class != StorageClass::Cold && old(self).hot@.contains_key((bucket@, key@)))
                    ==> (r matches Ok(b) && b@ == old(self).hot@[(bucket@, key@)])
                &&& (m.storage_class == StorageClass::Cold && !window_open(m, now)) ==> (r matches Err(Error::InvalidObjectState(_)))
                &&& (m.storage_class == StorageClass::Cold && window_open(m, now)) ==> {
                    &&& (forall|i: int| #[trigger] has_key(old(self).cache.entries(), ck, i)
                        ==> (live(old(self).cache.entries()[i], now, old(self).cache.ttl())
                            ==> (r matches Ok(b) && b@ == old(self).cache.entries()[i].1)))
                    &&& r is Err ==> (r matches Err(Error::InvalidObjectState(_)))
                    &&& !(exists|i: int| has_key(old(self).cache.entries(), ck, i) && live(old(self).cache.entries()[i], now, old(self).cache.ttl()))
                        ==> (r matches Err(Error::InvalidObjectState(_)))
                }
            },
    {
        let m = self.metadata.get_object(bucket, key)?;
        if m.storage_class != StorageClass::Cold {
            return match self.hot.get(bucket, key) {
                Some(b) => Ok(b),
                None => Err(Error::Internal("hot copy missing".to_owned())),
            };
        }
        let open = match (m.restore_status, m.restore_expire_at) {
            (Some(RestoreStatus::Completed), Some(e)) => e > now,
            _ => false,
        };
        if !open {
            return Err(Error::InvalidObjectState("object is cold: restore it first".to_owned()));
        }
        let ck = cache_key_of(&owned(bucket), &owned(key));
        match self.cache.get(ck.as_str(), now) {
            Some(b) => Ok(b),
            None => Err(Error::InvalidObjectState("restored copy expired: restore it again".to_owned())),
        }
    }

    /// HEAD: the metadata of `bucket`/`key`.
    pub fn head_object(&self, bucket: &str, key: &str) -> (r: Result<ObjectMetadata>)
        requires
            self.wf(),
        ensures
            self.metadata@.contains_key((bucket@, key@)) <==> r is Ok,
            r matches Ok(m) ==> crate::lifecycle::same_record(m, self.metadata@[(bucket@, key@)]),
    {
        self.metadata.get_object(bucket, key)
    }

    /// Demotes Hot object `bucket`/`key` to ColdPending. Of two demotions of
    /// the same object the second finds it ColdPending and fails with
    /// `ConflictingState`.
    pub fn demote(&mut self, bucket: &str, key: &str, now: u64) -> (r: Result<ObjectMetadata>)
        requires
            old(self).wf(),
        ensures
            final(self).wf(),
            old(self).metadata.cold_backed() ==> final(self).metadata.cold_backed(),
            final(self).hot == old(self).hot,
            !old(self).metadata@.contains_key((bucket@, key@)) ==> (r matches Err(Error::ObjectNotFound)),
            old(self).metadata@.contains_key((bucket@, key@)) ==> {
                let m = old(self).metadata@[(bucket@, key@)];
                &&& state_of(m) == st(StorageClass::Hot, None) ==> r is Ok
                    && is_after(m, Transition::Demote, now, final(self).metadata@[(bucket@, key@)])
                    && final(self).metadata@ == old(self).metadata@.insert((bucket@, key@), final(self).metadata@[(bucket@, key@)])
                &&& state_of(m) != st(StorageClass::Hot, None) ==> (r matches Err(Error::ConflictingState))
                    && final(self).metadata@ == old(self).metadata@
            },
    {
        let ghost before = self.metadata@;
        let r = self.metadata.update_storage_class(bucket, key, Transition::Demote, now);
        proof {
            let ts = self.recall.tasks();
            assert forall|i: int| 0 <= i < ts.len() && crate::recall::is_live(#[trigger] ts[i])
                implies crate::recall::restoring(self.metadata@, crate::recall::task_oid(ts[i]))
                && self.metadata@[crate::recall::task_oid(ts[i])].restore_status == Some(ts[i].status) by {
                assert(crate::recall::restoring(before, crate::recall::task_oid(ts[i])));
            }
            if old(self).metadata.cold_backed() {
                assert forall|x: ObjectId| #[trigger] self.metadata@.contains_key(x) && self.metadata@[x].storage_class == StorageClass::Cold
                    implies (self.metadata@[x].archive_id matches Some(a) && self.metadata.bundle_view().contains_key(a)
                    && self.metadata.bundle_view()[a].status == crate::models::ArchiveBundleStatus::Completed) by {
                    assert(before.contains_key(x));
                }
            }
        }
        r
    }

    /// RESTORE(days): admits a restore of `bucket`/`key` (see
    /// `RecallScheduler::submit_restore`).
    pub fn restore_object(&mut self, bucket: &str, key: &str, days: u32, now: u64) -> (r: Result<RecallTask>)
        requires
            old(self).wf(),
        ensures
            final(self).wf(),
            old(self).metadata.cold_backed() ==> final(self).metadata.cold_backed(),
            !old(self).metadata@.contains_key((bucket@, key@)) ==> (r matches Err(Error::ObjectNotFound)),
            old(self).metadata@.contains_key((bucket@, key@)) && old(self).metadata@[(bucket@, key@)].storage_class != StorageClass::Cold
                ==> (r matches Err(Error::InvalidObjectState(_))),
            r is Err ==> final(self).metadata@ == old(self).metadata@ && final(self).recall.tasks() == old(self).recall.tasks(),
            old(self).metadata@.contains_key((bucket@, key@)) ==> {
                let m = old(self).metadata@[(bucket@, key@)];
                let f = final(self).metadata@[(bucket@, key@)];
                let tasks0 = old(self).recall.tasks();
                &&& ((restorable(state_of(m)) || (m.storage_class == StorageClass::Cold && m.restore_status == Some(RestoreStatus::Completed)
                    && !window_open(m, now))) && m.archive_id is Some && m.tape_id is Some) ==> {
                    &&& r is Err ==> (r matches Err(Error::Internal(_)))
                    &&& r is Ok ==> {
                        &&& r.unwrap().status == RestoreStatus::Pending
                        &&& task_oid(r.unwrap()) == (bucket@, key@)
                        &&& final(self).recall.tasks() == tasks0.push(r.unwrap())
                        &&& f.restore_status == Some(RestoreStatus::Pending)
                        &&& restorable(state_of(m)) ==> is_after(m, Transition::RestoreRequest, now, f)
                    }
                }
                &&& (m.storage_class == StorageClass::Cold && window_open(m, now)) ==> {
                    let e = m.restore_expire_at.unwrap();
                    &&& r is Ok ==> f == ObjectMetadata {
                        restore_expire_at: Some(if e >= window_end(now, days) { e } else { window_end(now, days) }),
                        ..m
                    }
                    &&& (exists|i: int| 0 <= i < tasks0.len() && task_oid(#[trigger] tasks0[i]) == (bucket@, key@))
                        ==> r is Ok && final(self).recall.tasks() == tasks0
                    &&& forall|i: int| 0 <= i < final(self).recall.tasks().len() && is_live(#[trigger] final(self).recall.tasks()[i])
                        ==> i < tasks0.len() && final(self).recall.tasks()[i] == tasks0[i]
                }
            },
    {
        self.recall.submit_restore(&mut self.metadata, bucket, key, days, now)
    }

    /// One archive tick onto tape `tape_id`.
    pub fn run_archive_tick(&mut self, tape_id: &String, now: u64) -> (r: Result<Vec<u128>>)
        requires
            old(self).wf(),
        ensures
            final(self).wf(),
            archived_or_unchanged(old(self).metadata@, final(self).metadata@, final(self).metadata.bundle_view(), *tape_id, now),
            old(self).metadata.cold_backed() ==> final(self).metadata.cold_backed(),
            r is Ok && old(self).archive.min_archive_size_mb == 0 && old(self).metadata.size() <= old(self).archive.batch_size ==> forall|id: ObjectId|
                old(self).metadata@.contains_key(id) && state_of(old(self).metadata@[id]) == st(StorageClass::ColdPending, None)
                ==> #[trigger] final(self).metadata@[id].storage_class == StorageClass::Cold,
    {
        let ghost before = self.metadata@;
        let r = self.archive.scan_and_archive(&mut self.metadata, &mut self.hot, &mut self.tapes, &mut self.notifier, tape_id, now);
        proof {
            let ts = self.recall.tasks();
            assert forall|i: int| 0 <= i < ts.len() && crate::recall::is_live(#[trigger] ts[i])
                implies crate::recall::restoring(self.metadata@, crate::recall::task_oid(ts[i]))
                && self.metadata@[crate::recall::task_oid(ts[i])].restore_status == Some(ts[i].status) by {
                let id = crate::recall::task_oid(ts[i]);
                assert(crate::recall::restoring(before, id));
                assert(before.contains_key(id));
                if self.metadata@[id] != before[id] {
                    let a = choose|a: u128| crate::archive::committed(before[id], self.metadata@[id], a, *tape_id, now)
                        && self.metadata.bundle_view().contains_key(a)
                        && self.metadata.bundle_view()[a].status == crate::models::ArchiveBundleStatus::Completed;
                }
            }
        }
        r
    }

    /// Runs every pending restore (see `RecallScheduler::run_pending`).
    pub fn run_recall(&mut self, now: u64) -> (r: usize)
        requires
            old(self).wf(),
        ensures
            final(self).wf(),
            placement_kept(old(self).metadata@, final(self).metadata@),
            old(self).metadata.cold_backed() ==> final(self).metadata.cold_backed(),
            final(self).recall.tasks().len() == old(self).recall.tasks().len(),
            forall|j: int| 0 <= j < final(self).recall.tasks().len() && (#[trigger] final(self).recall.tasks()[j]).status == RestoreStatus::Completed
                && old(self).recall.tasks()[j].status != RestoreStatus::Completed ==> ready_until(final(self).metadata@,
                task_oid(old(self).recall.tasks()[j]), window_end(now, old(self).recall.tasks()[j].days)),
            forall|j: int| 0 <= j < final(self).recall.tasks().len() && is_live(old(self).recall.tasks()[j])
                && old(self).tapes.has_tape(old(self).recall.tasks()[j].tape_id@)
                && old(self).tapes.status(old(self).recall.tasks()[j].tape_id@) == TapeStatus::Online
                ==> !is_live(#[trigger] final(self).recall.tasks()[j]),
            forall|j: int| 0 <= j < final(self).recall.tasks().len() && is_live(old(self).recall.tasks()[j])
                && readable_at(&old(self).metadata, &old(self).tapes, old(self).recall.tasks()[j].tape_id@, old(self).recall.tasks()[j].archive_id)
                && stageable(old(self).metadata.bundle_view()[old(self).recall.tasks()[j].archive_id], old(self).recall.tasks()[j], old(self).cache.max_size())
                ==> (#[trigger] final(self).recall.tasks()[j]).status == RestoreStatus::Completed,
    {
        self.recall.run_pending(&mut self.metadata, &mut self.tapes, &mut self.cache, &mut self.notifier, now)
    }

    /// The janitor pass at `now`: drops expired cache entries, and ends the
    /// restore window of every RestoreReady object whose window has passed or
    /// whose cached copy is gone (restore status Expired). Returns the number
    /// of objects whose window ended.
    #[verifier::loop_isolation(false)]
    pub fn expire_restores(&mut self, now: u64) -> (r: usize)
        requires
            old(self).wf(),
        ensures
            final(self).wf(),
            placement_kept(old(self).metadata@, final(self).metadata@),
            old(self).metadata.cold_backed() ==> final(self).metadata.cold_backed(),
            final(self).hot == old(self).hot,
            old(self).metadata.size() < usize::MAX ==> forall|id: ObjectId| old(self).metadata@.contains_key(id)
                && state_of(old(self).metadata@[id]) == st(StorageClass::Cold, Some(RestoreStatus::Completed))
                && window_passed(old(self).metadata@[id], now)
                ==> (#[trigger] final(self).metadata@[id]).restore_status == Some(RestoreStatus::Expired),
    {
        let _ = self.cache.cleanup_expired(now);
        let ready = ObjectState { class: StorageClass::Cold, restore: Some(RestoreStatus::Completed) };
        let list = self.metadata.list_in_state(ready, usize::MAX);
        let ghost s0 = self.metadata@;
        proof { crate::recall::lemma_placement_refl(s0); }
        let mut count: usize = 0;
        let mut i: usize = 0;
        while i < list.len()
            invariant
                self.metadata.wf(),
                self.cache.wf(),
                self.recall.consistent(&self.metadata),
                self.metadata.bundle_view() == old(self).metadata.bundle_view(),
                placement_kept(s0, self.metadata@),
                s0 == old(self).metadata@,
                self.hot == old(self).hot,
                self.tapes == old(self).tapes,
                self.recall == old(self).recall,
                count <= i,
                i <= list@.len(),
                forall|q: int| i <= q < list@.len() ==> self.metadata@[oid(#[trigger] list@[q])] == s0[oid(list@[q])],
                forall|q: int| 0 <= q < i && window_passed(#[trigger] list@[q], now)
                    ==> self.metadata@[oid(list@[q])].restore_status == Some(RestoreStatus::Expired),
                forall|x: ObjectId| #[trigger] self.metadata@.contains_key(x) <==> s0.contains_key(x),
            decreases list.len() - i,
        {
            let m = &list[i];
            let passed = match m.restore_expire_at {
                Some(e) => e <= now,
                None => true,
            };
            let ck = cache_key_of(&m.bucket, &m.object_key);
            if passed || !self.cache.is_live(ck.as_str(), now) {
                let ghost before = self.metadata@;
                let res = self.metadata.update_storage_class(&m.bucket, &m.object_key, Transition::Expire, now);
                if res.is_ok() {
                    count = count + 1;
                }
                self.cache.evict(ck.as_str());
                proof {
                    let mid = oid(list@[i as int]);
                    assert(before[mid] == s0[mid]);
                    assert(res is Ok);
                    assert forall|q: int| i + 1 <= q < list@.len() implies self.metadata@[oid(#[trigger] list@[q])] == s0[oid(list@[q])] by {
                        assert(oid(list@[q]) != mid);
                    }
                    assert forall|q: int| 0 <= q < i + 1 && window_passed(#[trigger] list@[q], now)
                        implies self.metadata@[oid(list@[q])].restore_status == Some(RestoreStatus::Expired) by {
                        if q < i { assert(oid(list@[q]) != mid); }
                    }
                    let ts = self.recall.tasks();
                    assert forall|j: int| 0 <= j < ts.len() && crate::recall::is_live(#[trigger] ts[j])
                        implies crate::recall::restoring(self.metadata@, crate::recall::task_oid(ts[j]))
                        && self.metadata@[crate::recall::task_oid(ts[j])].restore_status == Some(ts[j].status) by {
                        assert(crate::recall::restoring(before, crate::recall::task_oid(ts[j])));
                    }
                    assert(placement_kept(before, self.metadata@)) by {
                        assert forall|x: ObjectId| #[trigger] before.contains_key(x) implies self.metadata@[x].storage_class == before[x].storage_class
                            && self.metadata@[x].archive_id == before[x].archive_id by {}
                    }
                    crate::recall::lemma_placement_trans(s0, before, self.metadata@);
                }
            } else {
                proof {
                    assert(!window_passed(list@[i as int], now));
                }
            }
            i = i + 1;
        }
        proof {
            if old(self).metadata.size() < usize::MAX {
                assert forall|id: ObjectId| old(self).metadata@.contains_key(id)
                    && state_of(old(self).metadata@[id]) == st(StorageClass::Cold, Some(RestoreStatus::Completed))
                    && window_passed(old(self).metadata@[id], now)
                    implies (#[trigger] self.metadata@[id]).restore_status == Some(RestoreStatus::Expired) by {
                    let q = choose|q: int| 0 <= q < list@.len() && oid(list@[q]) == id;
                    assert(window_passed(list@[q], now));
                }
            }
        }
        proof {
            if old(self).metadata.cold_backed() {
                assert forall|x: ObjectId| #[trigger] self.metadata@.contains_key(x) && self.metadata@[x].storage_class == StorageClass::Cold
                    implies (self.metadata@[x].archive_id matches Some(a) && self.metadata.bundle_view().contains_key(a)
                    && self.metadata.bundle_view()[a].status == crate::models::ArchiveBundleStatus::Completed) by {
                    assert(s0.contains_key(x));
                }
            }
        }
        count
    }
}

} // verus!
