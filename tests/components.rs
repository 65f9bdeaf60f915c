use coldstore::archive::{pack_bundles, sort_by_age};
use coldstore::cache::CacheManager;
use coldstore::config::{backend_from_config, BackendChoice, Config, EvictionPolicy, MetadataBackend};
use coldstore::error::Error;
use coldstore::lifecycle::{apply_transition, ObjectState, Transition};
use coldstore::models::{ObjectMetadata, RestoreStatus, StorageClass, TapeStatus};
use coldstore::notification::{Notification, NotificationService};
use coldstore::tape::{checksum_extend, TapeDriver, TapeManager};

fn cache(max: u64, ttl: u64) -> CacheManager {
    CacheManager::with_limits("/tmp/coldstore-test".to_string(), max, 1000, ttl)
}

#[test]
fn cache_get_returns_put_bytes() {
    let mut c = cache(100, 10);
    c.put("a", b"abc".to_vec(), 0).unwrap();
    assert_eq!(c.get("a", 5), Some(b"abc".to_vec()));
    assert_eq!(c.used_bytes(), 3);
    assert_eq!(c.get("b", 5), None);
}

#[test]
fn cache_insert_equal_to_capacity_evicts_all() {
    let mut c = cache(10, 100);
    c.put("a", vec![1; 4], 0).unwrap();
    c.put("b", vec![2; 4], 0).unwrap();
    c.put("big", vec![3; 10], 0).unwrap();
    assert_eq!(c.len(), 1);
    assert_eq!(c.used_bytes(), 10);
    assert_eq!(c.get("a", 1), None);
    assert_eq!(c.get("big", 1), Some(vec![3; 10]));
}

#[test]
fn cache_insert_larger_than_capacity_fails() {
    let mut c = cache(10, 100);
    c.put("a", vec![1; 4], 0).unwrap();
    assert!(matches!(c.put("big", vec![3; 11], 0), Err(Error::CacheTooSmall)));
    assert_eq!(c.get("a", 1), Some(vec![1; 4]));
    assert_eq!(c.used_bytes(), 4);
}

#[test]
fn cache_evicts_least_recently_used() {
    let mut c = cache(10, 100);
    c.put("a", vec![1; 4], 0).unwrap();
    c.put("b", vec![2; 4], 0).unwrap();
    assert_eq!(c.get("a", 1), Some(vec![1; 4]));
    c.put("c", vec![3; 4], 2).unwrap();
    assert_eq!(c.get("b", 3), None);
    assert_eq!(c.get("a", 3), Some(vec![1; 4]));
    assert_eq!(c.get("c", 3), Some(vec![3; 4]));
    assert!(c.used_bytes() <= 10);
}

#[test]
fn cache_replaces_entry_of_same_key() {
    let mut c = cache(10, 100);
    c.put("a", vec![1; 6], 0).unwrap();
    c.put("a", vec![2; 8], 0).unwrap();
    assert_eq!(c.len(), 1);
    assert_eq!(c.used_bytes(), 8);
    assert_eq!(c.get("a", 1), Some(vec![2; 8]));
}

#[test]
fn cache_ttl_and_cleanup() {
    let mut c = cache(100, 1);
    c.put("a", b"x".to_vec(), 0).unwrap();
    c.put("b", b"y".to_vec(), 5).unwrap();
    assert!(c.is_live("b", 5));
    assert!(!c.is_live("a", 2));
    assert_eq!(c.cleanup_expired(5), 1);
    assert_eq!(c.len(), 1);
    assert_eq!(c.get("b", 5), Some(b"y".to_vec()));
    assert_eq!(c.get("b", 7), None);
    assert_eq!(c.len(), 0);
}

#[test]
fn cache_evict_drops_entry() {
    let mut c = cache(100, 100);
    c.put("a", b"xyz".to_vec(), 0).unwrap();
    c.evict("a");
    assert_eq!(c.len(), 0);
    assert_eq!(c.used_bytes(), 0);
}

#[test]
fn cache_new_sizes() {
    let c = CacheManager::new("/tmp/x".to_string(), 1, 60).unwrap();
    assert_eq!(c.len(), 0);
    assert!(CacheManager::new("/tmp/x".to_string(), u64::MAX, 60).is_err());
}

#[test]
fn packing_is_greedy() {
    assert_eq!(pack_bundles(&vec![3, 3, 3], 6), vec![(0, 2), (2, 3)]);
    assert_eq!(pack_bundles(&vec![], 6), Vec::<(usize, usize)>::new());
    assert_eq!(pack_bundles(&vec![0, 0], 0), vec![(0, 2)]);
}

#[test]
fn packing_puts_oversized_objects_alone() {
    assert_eq!(pack_bundles(&vec![10], 5), vec![(0, 1)]);
    assert_eq!(pack_bundles(&vec![1, 10, 1], 5), vec![(0, 1), (1, 2), (2, 3)]);
    assert_eq!(pack_bundles(&vec![5, 5], 5), vec![(0, 1), (1, 2)]);
}

#[test]
fn lifecycle_legal_transitions() {
    let hot = ObjectState { class: StorageClass::Hot, restore: None };
    let pending = ObjectState { class: StorageClass::ColdPending, restore: None };
    assert_eq!(apply_transition(hot, &Transition::Demote), Some(pending));
    assert_eq!(apply_transition(pending, &Transition::Demote), None);
    let cold = apply_transition(pending, &Transition::ArchiveCommit { archive_id: 1, tape_id: "T".to_string() }).unwrap();
    assert_eq!(cold, ObjectState { class: StorageClass::Cold, restore: None });
    let req = apply_transition(cold, &Transition::RestoreRequest).unwrap();
    assert_eq!(req.restore, Some(RestoreStatus::Pending));
    let picked = apply_transition(req, &Transition::Picked).unwrap();
    assert_eq!(picked.restore, Some(RestoreStatus::InProgress));
    let ready = apply_transition(picked, &Transition::RestoreOk { expire_at: 9 }).unwrap();
    assert_eq!(ready.restore, Some(RestoreStatus::Completed));
    let expired = apply_transition(ready, &Transition::Expire).unwrap();
    assert_eq!(expired.restore, Some(RestoreStatus::Expired));
    assert_eq!(apply_transition(expired, &Transition::Clear), Some(cold));
    assert_eq!(apply_transition(picked, &Transition::RestoreFail).unwrap().restore, Some(RestoreStatus::Failed));
    assert_eq!(apply_transition(cold, &Transition::Picked), None);
    assert_eq!(apply_transition(pending, &Transition::ArchiveFail), Some(hot));
}

#[test]
fn tape_driver_append_and_read() {
    let mut t = TapeDriver::with_capacity("d0".to_string(), 8);
    assert_eq!(t.write(&b"abc".to_vec()).unwrap(), 0);
    assert_eq!(t.write(&b"de".to_vec()).unwrap(), 3);
    assert_eq!(t.read(1, 3).unwrap(), b"bcd".to_vec());
    assert!(matches!(t.read(4, 2), Err(Error::TapeIo)));
    assert!(matches!(t.write(&b"wxyz".to_vec()), Err(Error::TapeIo)));
    assert_eq!(t.len(), 5);
    assert!(t.seek(2).is_ok());
    assert!(t.seek(6).is_err());
    assert_eq!(TapeDriver::new("d1".to_string()).len(), 0);
}

#[test]
fn tape_manager_status() {
    let mut m = TapeManager::new();
    m.add_tape("T1", 100).unwrap();
    assert!(m.add_tape("T1", 100).is_err());
    assert_eq!(m.is_tape_online("T1").unwrap(), true);
    m.update_tape_status("T1", TapeStatus::Offline).unwrap();
    assert_eq!(m.tape_status("T1").unwrap(), TapeStatus::Offline);
    assert!(matches!(m.write("T1", &b"x".to_vec()), Err(Error::TapeOffline(_))));
    assert!(matches!(m.tape_status("T9"), Err(Error::ObjectNotFound)));
    m.update_tape_status("T1", TapeStatus::Online).unwrap();
    assert_eq!(m.write("T1", &b"xy".to_vec()).unwrap(), 0);
    assert_eq!(m.read("T1", 0, 2).unwrap(), b"xy".to_vec());
    assert_eq!(m.read_count("T1").unwrap(), 1);
}

#[test]
fn notification_queue_drains_in_order() {
    let mut n = NotificationService::new(Some("http://hook".to_string()), None);
    n.notify_offline_tape(&"T1".to_string(), vec![7]);
    n.notify_restore_completed(3);
    let out = n.drain();
    assert_eq!(out.len(), 2);
    assert!(matches!(&out[0], Notification::TapeOffline { tape_id, archive_ids } if tape_id == "T1" && archive_ids == &vec![7]));
    assert!(n.drain().is_empty());
}

#[test]
fn default_config() {
    let c = Config::default();
    assert_eq!(c.server.port, 9000);
    assert_eq!(c.metadata.backend, MetadataBackend::Postgres);
    assert_eq!(c.scheduler.archive.batch_size, 1000);
    assert_eq!(c.cache.ttl_secs, 86400);
    assert_eq!(c.cache.eviction_policy, EvictionPolicy::Lru);
    assert_eq!(c.tape.supported_formats, vec!["LTO-9".to_string(), "LTO-10".to_string()]);
}

#[test]
fn checksum_is_byte_sum_modulo() {
    assert_eq!(checksum_extend(0, &vec![1, 2, 3]), 6);
    assert_eq!(checksum_extend(u64::MAX, &vec![2]), 1);
    assert_eq!(checksum_extend(7, &Vec::new()), 7);
}

#[test]
fn sort_by_age_orders_oldest_first() {
    let rec = |k: &str, t: u64| ObjectMetadata {
        bucket: "b".to_string(),
        object_key: k.to_string(),
        version: None,
        storage_class: StorageClass::ColdPending,
        archive_id: None,
        tape_id: None,
        tape_set: None,
        checksum: String::new(),
        size: 1,
        restore_status: None,
        restore_expire_at: None,
        created_at: 0,
        updated_at: t,
    };
    let sorted = sort_by_age(vec![rec("c", 30), rec("a", 10), rec("b", 20)]);
    let keys: Vec<String> = sorted.iter().map(|m| m.object_key.clone()).collect();
    assert_eq!(keys, vec!["a".to_string(), "b".to_string(), "c".to_string()]);
}

#[test]
fn tape_info_and_available_drive() {
    let mut m = TapeManager::new();
    assert_eq!(m.get_available_drive(), None);
    m.add_tape("T1", 100).unwrap();
    m.add_tape("T2", 50).unwrap();
    m.write("T2", &b"abc".to_vec()).unwrap();
    let info = m.get_tape("T2").unwrap();
    assert_eq!(info.id, "T2");
    assert_eq!(info.status, TapeStatus::Online);
    assert_eq!(info.capacity_bytes, Some(50));
    assert_eq!(info.used_bytes, Some(3));
    m.update_tape_status("T1", TapeStatus::Error).unwrap();
    assert_eq!(m.get_available_drive(), Some("T2".to_string()));
    assert!(matches!(m.get_tape("T3"), Err(Error::ObjectNotFound)));
}

#[test]
fn cache_new_accepts_large_sizes() {
    assert!(CacheManager::new("/tmp/x".to_string(), 200000, 60).is_ok());
    assert!(CacheManager::new("/tmp/x".to_string(), u64::MAX / 1073741824, 60).is_ok());
}

#[test]
fn cache_full_capacity_blob_evicts_empty_entries() {
    let mut c = cache(10, 100);
    c.put("empty", Vec::new(), 0).unwrap();
    c.put("a", vec![1; 3], 0).unwrap();
    c.put("big", vec![3; 10], 0).unwrap();
    assert_eq!(c.len(), 1);
    assert_eq!(c.get("empty", 1), None);
}

#[test]
fn backend_selection_follows_config() {
    let mut c = Config::default().metadata;
    assert!(matches!(backend_from_config(&c), Ok(BackendChoice::Postgres(p)) if p.max_connections == 10));
    c.postgres = None;
    assert!(matches!(backend_from_config(&c), Err(Error::Metadata(_))));
    c.backend = MetadataBackend::Etcd;
    assert!(backend_from_config(&c).is_err());
    c.etcd = Some(coldstore::config::EtcdConfig { endpoints: vec!["http://e:2379".to_string()], timeout_secs: 5 });
    assert!(matches!(backend_from_config(&c), Ok(BackendChoice::Etcd(_))));
}
