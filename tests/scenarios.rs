use coldstore::archive::ArchiveScheduler;
use coldstore::cache::CacheManager;
use coldstore::error::Error;
use coldstore::handler::S3Handler;
use coldstore::models::{ArchiveBundleStatus, RestoreStatus, StorageClass, TapeStatus};
use coldstore::notification::{Notification, NotificationService};
use coldstore::recall::RecallScheduler;
use coldstore::tape::TapeManager;

fn service(batch_size: usize, cache_bytes: u64, ttl_secs: u64, tape_capacity: u64) -> S3Handler {
    let cache = CacheManager::with_limits("/tmp/coldstore-cache".to_string(), cache_bytes, 1000, ttl_secs);
    let mut tapes = TapeManager::new();
    tapes.add_tape("T1", tape_capacity).unwrap();
    let archive = ArchiveScheduler::new(3600, batch_size, 0, 300);
    let recall = RecallScheduler::new(10, 3600, 300);
    let notifier = NotificationService::new(None, None);
    S3Handler::new(cache, tapes, archive, recall, notifier)
}

fn tape() -> String {
    "T1".to_string()
}

fn offline_alerts(alerts: &[Notification]) -> usize {
    alerts.iter().filter(|n| matches!(n, Notification::TapeOffline { .. })).count()
}

#[test]
fn archive_restore_read() {
    let mut svc = service(1, 1 << 20, 3600, 1 << 20);
    svc.put_object("b", "k", b"hello".to_vec(), 10).unwrap();
    svc.demote("b", "k", 11).unwrap();
    let done = svc.run_archive_tick(&tape(), 12).unwrap();
    assert_eq!(done.len(), 1);
    let m = svc.head_object("b", "k").unwrap();
    assert_eq!(m.storage_class, StorageClass::Cold);
    assert_eq!(m.archive_id, Some(done[0]));
    assert!(svc.hot.get("b", "k").is_none());
    assert!(matches!(svc.get_object("b", "k", 13), Err(Error::InvalidObjectState(_))));
    let task = svc.restore_object("b", "k", 1, 14).unwrap();
    assert_eq!(task.status, RestoreStatus::Pending);
    assert_eq!(svc.run_recall(15), 1);
    assert_eq!(svc.get_object("b", "k", 16).unwrap(), b"hello".to_vec());
    let m = svc.head_object("b", "k").unwrap();
    assert_eq!(m.restore_status, Some(RestoreStatus::Completed));
    assert_eq!(m.restore_expire_at, Some(15 + 86400));
}

#[test]
fn offline_tape_deferral() {
    let mut svc = service(1, 1 << 20, 3600, 1 << 20);
    svc.put_object("b", "k", b"data".to_vec(), 0).unwrap();
    svc.demote("b", "k", 1).unwrap();
    svc.run_archive_tick(&tape(), 2).unwrap();
    svc.tapes.update_tape_status("T1", TapeStatus::Offline).unwrap();
    let task = svc.restore_object("b", "k", 1, 3).unwrap();
    assert_eq!(task.status, RestoreStatus::Pending);
    assert_eq!(svc.run_recall(4), 0);
    assert_eq!(svc.run_recall(5), 0);
    let alerts = svc.notifier.drain();
    assert_eq!(offline_alerts(&alerts), 1);
    assert_eq!(svc.head_object("b", "k").unwrap().restore_status, Some(RestoreStatus::InProgress));
    svc.tapes.update_tape_status("T1", TapeStatus::Online).unwrap();
    assert_eq!(svc.run_recall(6), 1);
    let m = svc.head_object("b", "k").unwrap();
    assert_eq!(m.restore_status, Some(RestoreStatus::Completed));
    assert_eq!(svc.get_object("b", "k", 7).unwrap(), b"data".to_vec());
    assert_eq!(offline_alerts(&svc.notifier.drain()), 0);
}

#[test]
fn offline_tape_times_out() {
    let mut svc = service(1, 1 << 20, 3600, 1 << 20);
    svc.put_object("b", "k", b"data".to_vec(), 0).unwrap();
    svc.demote("b", "k", 1).unwrap();
    svc.run_archive_tick(&tape(), 2).unwrap();
    svc.tapes.update_tape_status("T1", TapeStatus::Offline).unwrap();
    svc.restore_object("b", "k", 1, 3).unwrap();
    assert_eq!(svc.run_recall(4), 0);
    assert_eq!(svc.run_recall(3 + 3600), 0);
    let m = svc.head_object("b", "k").unwrap();
    assert_eq!(m.storage_class, StorageClass::Cold);
    assert_eq!(m.restore_status, Some(RestoreStatus::Failed));
    let task = svc.restore_object("b", "k", 1, 5000).unwrap();
    assert_eq!(task.status, RestoreStatus::Pending);
}

#[test]
fn coalesced_reads() {
    let mut svc = service(2, 1 << 20, 3600, 1 << 20);
    svc.put_object("b", "k1", b"first".to_vec(), 0).unwrap();
    svc.put_object("b", "k2", b"second!".to_vec(), 0).unwrap();
    svc.demote("b", "k1", 1).unwrap();
    svc.demote("b", "k2", 1).unwrap();
    let done = svc.run_archive_tick(&tape(), 2).unwrap();
    assert_eq!(done.len(), 1);
    let a = svc.head_object("b", "k1").unwrap().archive_id;
    assert_eq!(a, svc.head_object("b", "k2").unwrap().archive_id);
    svc.restore_object("b", "k1", 1, 3).unwrap();
    svc.restore_object("b", "k2", 1, 3).unwrap();
    assert_eq!(svc.recall.merge_tasks_by_tape().len(), 1);
    assert_eq!(svc.run_recall(4), 2);
    assert_eq!(svc.tapes.read_count("T1").unwrap(), 1);
    assert_eq!(svc.head_object("b", "k1").unwrap().restore_status, Some(RestoreStatus::Completed));
    assert_eq!(svc.head_object("b", "k2").unwrap().restore_status, Some(RestoreStatus::Completed));
    assert_eq!(svc.get_object("b", "k1", 5).unwrap(), b"first".to_vec());
    assert_eq!(svc.get_object("b", "k2", 5).unwrap(), b"second!".to_vec());
}

#[test]
fn cache_ttl_expiry() {
    let mut svc = service(1, 1 << 20, 1, 1 << 20);
    svc.put_object("b", "k", b"hello".to_vec(), 0).unwrap();
    svc.demote("b", "k", 0).unwrap();
    svc.run_archive_tick(&tape(), 0).unwrap();
    svc.restore_object("b", "k", 1, 100).unwrap();
    assert_eq!(svc.run_recall(100), 1);
    assert_eq!(svc.get_object("b", "k", 100).unwrap(), b"hello".to_vec());
    assert_eq!(svc.cache.get("b/k", 102), None);
    assert_eq!(svc.expire_restores(102), 1);
    assert_eq!(svc.head_object("b", "k").unwrap().restore_status, Some(RestoreStatus::Expired));
    assert!(matches!(svc.get_object("b", "k", 103), Err(Error::InvalidObjectState(_))));
}

#[test]
fn conflicting_demote() {
    let mut svc = service(1, 1 << 20, 3600, 1 << 20);
    svc.put_object("b", "k", b"x".to_vec(), 0).unwrap();
    let first = svc.demote("b", "k", 1);
    let second = svc.demote("b", "k", 1);
    assert!(first.is_ok());
    assert!(matches!(second, Err(Error::ConflictingState)));
    assert_eq!(svc.head_object("b", "k").unwrap().storage_class, StorageClass::ColdPending);
}

#[test]
fn archive_partial_failure() {
    let mut svc = service(3, 1 << 20, 3600, 12);
    for k in ["k1", "k2", "k3"] {
        svc.put_object("b", k, b"aaaaa".to_vec(), 0).unwrap();
        svc.demote("b", k, 1).unwrap();
    }
    let r = svc.run_archive_tick(&tape(), 2);
    assert!(matches!(r, Err(Error::TapeIo)));
    for k in ["k1", "k2", "k3"] {
        let m = svc.head_object("b", k).unwrap();
        assert_eq!(m.storage_class, StorageClass::ColdPending);
        assert_eq!(m.archive_id, None);
        assert_eq!(svc.hot.get("b", k), Some(b"aaaaa".to_vec()));
    }
    let ids = svc.metadata.bundle_ids();
    assert_eq!(ids.len(), 1);
    assert_eq!(svc.metadata.get_bundle(ids[0]).unwrap().status, ArchiveBundleStatus::Failed);
    let alerts = svc.notifier.drain();
    assert_eq!(alerts.len(), 1);
    assert!(matches!(alerts[0], Notification::BundleFailed { bundle_id } if bundle_id == ids[0]));
}

#[test]
fn restore_of_missing_object() {
    let mut svc = service(1, 1 << 20, 3600, 1 << 20);
    assert!(matches!(svc.restore_object("b", "nope", 1, 0), Err(Error::ObjectNotFound)));
}

#[test]
fn restore_of_hot_object_is_rejected() {
    let mut svc = service(1, 1 << 20, 3600, 1 << 20);
    svc.put_object("b", "k", b"x".to_vec(), 0).unwrap();
    assert!(matches!(svc.restore_object("b", "k", 1, 0), Err(Error::InvalidObjectState(_))));
    assert_eq!(svc.get_object("b", "k", 1).unwrap(), b"x".to_vec());
}

#[test]
fn resubmitted_restore_only_extends_expiry() {
    let mut svc = service(1, 1 << 20, 1_000_000, 1 << 20);
    svc.put_object("b", "k", b"x".to_vec(), 0).unwrap();
    svc.demote("b", "k", 0).unwrap();
    svc.run_archive_tick(&tape(), 0).unwrap();
    let t1 = svc.restore_object("b", "k", 1, 10).unwrap();
    assert_eq!(svc.run_recall(10), 1);
    let t2 = svc.restore_object("b", "k", 3, 20).unwrap();
    assert_eq!(t1.id, t2.id);
    assert_eq!(svc.recall.merge_tasks_by_tape().len(), 0);
    let m = svc.head_object("b", "k").unwrap();
    assert_eq!(m.restore_expire_at, Some(20 + 3 * 86400));
    assert_eq!(m.restore_status, Some(RestoreStatus::Completed));
}

#[test]
fn duplicate_restore_is_coalesced() {
    let mut svc = service(1, 1 << 20, 3600, 1 << 20);
    svc.put_object("b", "k", b"x".to_vec(), 0).unwrap();
    svc.demote("b", "k", 0).unwrap();
    svc.run_archive_tick(&tape(), 0).unwrap();
    let t1 = svc.restore_object("b", "k", 1, 10).unwrap();
    let t2 = svc.restore_object("b", "k", 1, 11).unwrap();
    assert_eq!(t1.id, t2.id);
    assert_eq!(svc.recall.merge_tasks_by_tape().len(), 1);
    assert_eq!(svc.recall.merge_tasks_by_tape()[0].tasks.len(), 1);
}

#[test]
fn second_tick_is_a_no_op() {
    let mut svc = service(10, 1 << 20, 3600, 1 << 20);
    svc.put_object("b", "k", b"x".to_vec(), 0).unwrap();
    svc.demote("b", "k", 0).unwrap();
    assert_eq!(svc.run_archive_tick(&tape(), 1).unwrap().len(), 1);
    let before = svc.head_object("b", "k").unwrap();
    assert_eq!(svc.run_archive_tick(&tape(), 2).unwrap().len(), 0);
    let after = svc.head_object("b", "k").unwrap();
    assert_eq!(before.updated_at, after.updated_at);
    assert_eq!(before.archive_id, after.archive_id);
}

#[test]
fn zero_sized_object_round_trip() {
    let mut svc = service(1, 1 << 20, 3600, 1 << 20);
    svc.put_object("b", "empty", Vec::new(), 0).unwrap();
    svc.demote("b", "empty", 0).unwrap();
    assert_eq!(svc.run_archive_tick(&tape(), 0).unwrap().len(), 1);
    svc.restore_object("b", "empty", 1, 1).unwrap();
    assert_eq!(svc.run_recall(1), 1);
    assert_eq!(svc.get_object("b", "empty", 2).unwrap(), Vec::<u8>::new());
}

#[test]
fn small_bundles_wait_for_minimum_size() {
    let cache = CacheManager::with_limits("/tmp/c".to_string(), 1 << 20, 1000, 3600);
    let mut tapes = TapeManager::new();
    tapes.add_tape("T1", 1 << 30).unwrap();
    let archive = ArchiveScheduler::new(3600, 10, 1, 300);
    let mut svc = S3Handler::new(cache, tapes, archive, RecallScheduler::new(1, 3600, 300), NotificationService::new(None, None));
    svc.put_object("b", "k", b"tiny".to_vec(), 0).unwrap();
    svc.demote("b", "k", 0).unwrap();
    assert_eq!(svc.run_archive_tick(&tape(), 1).unwrap().len(), 0);
    assert_eq!(svc.head_object("b", "k").unwrap().storage_class, StorageClass::ColdPending);
    svc.put_object("b", "big", vec![7u8; 1 << 20], 0).unwrap();
    svc.demote("b", "big", 0).unwrap();
    assert_eq!(svc.run_archive_tick(&tape(), 2).unwrap().len(), 1);
    assert_eq!(svc.head_object("b", "k").unwrap().storage_class, StorageClass::Cold);
    assert_eq!(svc.head_object("b", "big").unwrap().storage_class, StorageClass::Cold);
}

#[test]
fn notifications_of_completion() {
    let mut svc = service(1, 1 << 20, 3600, 1 << 20);
    svc.put_object("b", "k", b"x".to_vec(), 0).unwrap();
    svc.demote("b", "k", 0).unwrap();
    svc.run_archive_tick(&tape(), 0).unwrap();
    let t = svc.restore_object("b", "k", 1, 1).unwrap();
    svc.run_recall(1);
    let alerts = svc.notifier.drain();
    assert_eq!(alerts.len(), 1);
    assert!(matches!(alerts[0], Notification::RestoreCompleted { task_id } if task_id == t.id));
}

#[test]
fn bundle_members_follow_update_order() {
    let mut svc = service(10, 1 << 20, 3600, 1 << 20);
    svc.put_object("b", "x", b"xx".to_vec(), 0).unwrap();
    svc.put_object("b", "y", b"yyy".to_vec(), 0).unwrap();
    svc.demote("b", "x", 20).unwrap();
    svc.demote("b", "y", 10).unwrap();
    let done = svc.run_archive_tick(&tape(), 30).unwrap();
    assert_eq!(done.len(), 1);
    let bundle = svc.metadata.get_bundle(done[0]).unwrap();
    assert_eq!(bundle.object_keys, vec!["y".to_string(), "x".to_string()]);
    assert_eq!(bundle.sizes, vec![3, 2]);
    assert_eq!(bundle.total_size, 5);
    assert_eq!(bundle.status, ArchiveBundleStatus::Completed);
    assert_eq!(bundle.checksum, (b'y' as u64) * 3 + (b'x' as u64) * 2);
    assert_eq!(svc.tapes.read("T1", bundle.offset, 5).unwrap(), b"yyyxx".to_vec());
}

#[test]
fn list_by_bucket_and_prefix() {
    let mut svc = service(1, 1 << 20, 3600, 1 << 20);
    svc.put_object("b", "a1", b"1".to_vec(), 0).unwrap();
    svc.put_object("b", "a2", b"2".to_vec(), 0).unwrap();
    svc.put_object("b", "c", b"3".to_vec(), 0).unwrap();
    svc.put_object("other", "a1", b"4".to_vec(), 0).unwrap();
    let keys: Vec<String> = svc.metadata.list_objects("b", Some("a"), None).iter().map(|m| m.object_key.clone()).collect();
    assert_eq!(keys, vec!["a1".to_string(), "a2".to_string()]);
    assert_eq!(svc.metadata.list_objects("b", None, None).len(), 3);
    assert_eq!(svc.metadata.list_objects("b", Some("a"), Some(1)).len(), 1);
    assert_eq!(svc.metadata.list_objects("none", None, None).len(), 0);
    svc.metadata.delete_object("b", "c").unwrap();
    assert!(matches!(svc.metadata.delete_object("b", "c"), Err(Error::ObjectNotFound)));
    assert_eq!(svc.metadata.list_objects("b", None, None).len(), 2);
}

#[test]
fn restore_after_window_passed_starts_new_task() {
    let mut svc = service(1, 1 << 20, 1_000_000, 1 << 20);
    svc.put_object("b", "k", b"abc".to_vec(), 0).unwrap();
    svc.demote("b", "k", 0).unwrap();
    svc.run_archive_tick(&tape(), 0).unwrap();
    let t1 = svc.restore_object("b", "k", 1, 10).unwrap();
    assert_eq!(svc.run_recall(10), 1);
    let later = 10 + 2 * 86400;
    let t2 = svc.restore_object("b", "k", 1, later).unwrap();
    assert_ne!(t1.id, t2.id);
    assert_eq!(t2.status, RestoreStatus::Pending);
    assert_eq!(svc.head_object("b", "k").unwrap().restore_status, Some(RestoreStatus::Pending));
    assert_eq!(svc.run_recall(later), 1);
    assert_eq!(svc.get_object("b", "k", later + 1).unwrap(), b"abc".to_vec());
}
