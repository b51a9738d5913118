//! The state of a cluster and where its objects go.

use shardedobjstr::catalog::Catalog;
use shardedobjstr::error::ShardError;
use shardedobjstr::event::StoreEvent;
use shardedobjstr::persistence::CatalogPersistence;
use shardedobjstr::replication::jump_consistent_hash;
use shardedobjstr::store::{DetachReason, ReadPreference, ShardHealth, ShardedObjectStore};
use shardedobjstr::string_map::StringMap;
use shardedobjstr::time::Timestamp;

fn at(secs: i64) -> Timestamp {
    Timestamp { secs, nanos: 0 }
}

fn put(store: &mut ShardedObjectStore, key: &str, shards: &[usize]) {
    store.catalog_mut().put_at(key.to_string(), shards.to_vec(), 10, Some(7), 0, at(100));
}

#[test]
fn a_new_cluster_is_healthy_and_clamps_its_numbers() {
    let store = ShardedObjectStore::new(3, 5);
    assert_eq!(store.shard_count(), 3);
    assert_eq!(store.replication_factor(), 3);
    assert_eq!(store.min_writes(), 2);
    assert_eq!(store.shard_health(2), Some(ShardHealth::Healthy));
    assert_eq!(store.shard_health(3), None);
    assert_eq!(store.shard_free_space(0), Some(u64::MAX));
    assert!(!store.is_read_only());
    assert!(store.catalog().is_empty());
    let store = store.with_min_writes(9);
    assert_eq!(store.min_writes(), 3);
    let store = store.with_min_writes(0);
    assert_eq!(store.min_writes(), 1);
    assert_eq!(ShardedObjectStore::new(2, 1).min_writes(), 1);
}

#[test]
fn missing_shards_start_offline() {
    let store = ShardedObjectStore::new_with_offline(&[true, false], 2, at(5));
    assert_eq!(store.shard_health(0), Some(ShardHealth::Healthy));
    assert_eq!(store.shard_health(1), Some(ShardHealth::Offline));
    assert_eq!(store.shard_offline_since(1), Some(at(5)));
    assert_eq!(store.shard_free_space(1), Some(0));
}

#[test]
fn a_syncing_shard_serves_no_requests() {
    for (health, writable, unavailable, away) in [
        (ShardHealth::Healthy, true, false, false),
        (ShardHealth::Degraded, true, false, false),
        (ShardHealth::Offline, false, true, true),
        (ShardHealth::Syncing, false, true, false),
        (ShardHealth::Detached, false, true, true),
    ] {
        assert_eq!(health.is_writable(), writable);
        assert_eq!(health.is_unavailable(), unavailable);
        assert_eq!(health.is_away(), away);
    }
    let mut store = ShardedObjectStore::new(3, 2);
    put(&mut store, "k", &[0, 1]);
    store.set_shard_health_at(1, ShardHealth::Offline, at(5));
    store.set_shard_health_at(1, ShardHealth::Syncing, at(6));
    assert_eq!(store.shard_offline_since(1), Some(at(5)));
    assert_eq!(store.resolve_shards("k"), (vec![0], false));
    assert_eq!(store.readable_shards(), vec![0, 2]);
    assert_eq!(store.find_under_replicated(), Vec::new());
    store.detach_shard_at(1, at(8));
    assert_eq!(store.shard_offline_since(1), Some(at(8)));
}

#[test]
fn health_is_set_with_the_time_it_was_lost() {
    let mut store = ShardedObjectStore::new(2, 2);
    assert_eq!(store.set_shard_health_at(1, ShardHealth::Offline, at(9)), Some(ShardHealth::Healthy));
    assert_eq!(store.shard_offline_since(1), Some(at(9)));
    assert_eq!(store.set_shard_health_at(1, ShardHealth::Healthy, at(11)), Some(ShardHealth::Offline));
    assert_eq!(store.shard_offline_since(1), None);
    assert_eq!(store.set_shard_health_at(7, ShardHealth::Healthy, at(11)), None);
}

#[test]
fn a_detached_shard_is_offline() {
    let mut store = ShardedObjectStore::new(2, 2);
    store.set_detach_reason(0, DetachReason::ProbeFailure);
    assert_eq!(store.shard_detach_reason(0), Some(DetachReason::ProbeFailure));
    assert_eq!(store.detach_shard_at(1, at(3)), Some(ShardHealth::Healthy));
    assert_eq!(store.shard_health(1), Some(ShardHealth::Offline));
    assert_eq!(store.shard_offline_since(1), Some(at(3)));
    assert_eq!(store.shard_free_space(1), Some(0));
    assert_eq!(store.detach_shard_at(2, at(3)), None);
}

#[test]
fn a_held_shard_is_released() {
    let mut store = ShardedObjectStore::new(2, 2);
    let old = store.hold_offline_at(0, true, DetachReason::Manual, at(4));
    assert_eq!(old, Some(ShardHealth::Healthy));
    assert!(store.shard_suppress_replication(0));
    assert_eq!(store.shard_health(0), Some(ShardHealth::Detached));
    assert_eq!(store.shard_detach_reason(0), Some(DetachReason::Manual));
    assert!(store.release_hold(0));
    assert!(!store.shard_suppress_replication(0));
    assert!(!store.release_hold(9));
}

#[test]
fn a_shard_that_is_taken_away_keeps_its_entries() {
    let mut store = ShardedObjectStore::new(3, 2);
    put(&mut store, "k", &[0, 1]);
    store.detach_shard_at(0, at(3));
    assert_eq!(store.hold_offline_at(1, false, DetachReason::Manual, at(4)), Some(ShardHealth::Healthy));
    assert_eq!(store.placement("k").unwrap().shards, vec![0, 1]);
    assert_eq!(store.shard_health(2), Some(ShardHealth::Healthy));
    assert_eq!(store.select_targets("new"), vec![2]);
    assert!(store.release_hold(1));
    assert_eq!(store.shard_health(1), store.shard_health(0));
    assert_eq!(store.shard_detach_reason(1), None);
}

#[test]
fn a_health_that_is_set_now_counts_from_now() {
    let mut store = ShardedObjectStore::new(2, 2);
    assert_eq!(store.set_shard_health(1, ShardHealth::Degraded), Some(ShardHealth::Healthy));
    assert_eq!(store.shard_health(1), Some(ShardHealth::Degraded));
    assert!(store.shard_offline_since(1).is_some());
    assert_eq!(store.set_shard_health(2, ShardHealth::Degraded), None);
}

#[test]
fn free_space_is_recorded() {
    let mut store = ShardedObjectStore::new(2, 1);
    store.set_shard_free_space(1, 4096);
    assert_eq!(store.shard_free_space(1), Some(4096));
    store.set_shard_free_space(7, 1);
    assert_eq!(store.shard_free_space(0), Some(u64::MAX));
    assert_eq!(store.shard_free_space(7), None);
}

#[test]
fn a_cluster_keeps_how_it_is_saved() {
    let store = ShardedObjectStore::new(1, 1);
    assert!(matches!(store.persistence(), CatalogPersistence::Memory));
    let store = store.with_persistence(CatalogPersistence::Json { path: "/c.json".to_string() });
    assert!(matches!(store.persistence(), CatalogPersistence::Json { path } if path == "/c.json"));
}

#[test]
fn failures_take_shards_away_only_if_nothing_was_written() {
    let mut store = ShardedObjectStore::new(4, 2);
    let first = store.target_shards("k");
    assert_eq!(first, store.select_targets("k"));
    assert_eq!(first.len(), 2);
    let retry = store.mark_write_failures(&[first[0]], &[first[1]], &first, "k", at(5));
    assert_eq!(retry, Vec::<usize>::new());
    assert_eq!(store.shard_health(first[1]), Some(ShardHealth::Degraded));
    let retry = store.mark_write_failures(&[], &first, &first, "k", at(6));
    assert_eq!(store.shard_health(first[0]), Some(ShardHealth::Offline));
    assert_eq!(store.shard_health(first[1]), Some(ShardHealth::Offline));
    assert_eq!(retry.len(), 2);
    assert!(retry.iter().all(|id| !first.contains(id)));
}

#[test]
fn few_shards_all_take_a_new_object() {
    let store = ShardedObjectStore::new(2, 2);
    assert_eq!(store.select_targets("any"), vec![0, 1]);
    assert_eq!(ShardedObjectStore::new(0, 1).select_targets("any"), Vec::<usize>::new());
}

#[test]
fn a_new_object_goes_around_the_ring_from_its_home() {
    let mut store = ShardedObjectStore::new(5, 3);
    for hash in [0u32, 1, 17, 0xDEAD_BEEF, u32::MAX] {
        let home = jump_consistent_hash(hash as u64, 5) as usize;
        let want: Vec<usize> = (0..3).map(|i| (home + i) % 5).collect();
        assert_eq!(store.targets_for_hash(hash), want);
    }
    let home = jump_consistent_hash(1, 5) as usize;
    store.set_shard_health_at(home, ShardHealth::Offline, at(1));
    let want: Vec<usize> = (1..4).map(|i| (home + i) % 5).collect();
    assert_eq!(store.targets_for_hash(1), want);
}

#[test]
fn reads_of_known_objects_rotate() {
    let mut store = ShardedObjectStore::new(4, 2);
    put(&mut store, "k", &[3, 1]);
    assert_eq!(store.resolve_shards("k"), (vec![3, 1], false));
    assert_eq!(store.resolve_shards("k"), (vec![1, 3], false));
    assert_eq!(store.resolve_shards("k"), (vec![3, 1], false));
    assert_eq!(store.read_counter(), 3);
}

#[test]
fn a_read_order_is_that_of_the_read() {
    let mut store = ShardedObjectStore::new(4, 2);
    put(&mut store, "k", &[3, 1]);
    assert_eq!(store.read_shard_order("k"), vec![3, 1]);
    assert_eq!(store.read_shard_order("k"), vec![1, 3]);
    store.set_shard_health_at(3, ShardHealth::Offline, at(1));
    assert_eq!(store.read_shard_order("k"), vec![1]);
}

#[test]
fn ordered_reads_go_up() {
    let mut store = ShardedObjectStore::new(4, 2);
    store.set_read_preference(ReadPreference::Ordered);
    put(&mut store, "k", &[3, 1]);
    assert_eq!(store.resolve_shards("k"), (vec![1, 3], false));
    assert_eq!(store.resolve_shards("k"), (vec![1, 3], false));
    store.set_shard_health_at(1, ShardHealth::Offline, at(1));
    assert_eq!(store.resolve_shards("k"), (vec![3], false));
}

#[test]
fn reads_of_unknown_objects_look_everywhere() {
    let mut store = ShardedObjectStore::new(3, 2);
    let (mut ids, fallback) = store.resolve_shards("nowhere");
    ids.sort();
    assert_eq!(ids, vec![0, 1, 2]);
    assert!(fallback);
}

#[test]
fn copies_are_counted_on_shards_that_are_there() {
    let mut store = ShardedObjectStore::new(3, 2);
    put(&mut store, "few", &[0]);
    put(&mut store, "right", &[0, 1]);
    put(&mut store, "many", &[0, 1, 2]);
    assert_eq!(store.find_under_replicated(), vec![("few".to_string(), 1)]);
    assert_eq!(store.find_over_replicated(), vec![("many".to_string(), 3)]);
    let target = store.find_replication_target("few").unwrap();
    assert!(target == 1 || target == 2);
    assert_eq!(store.find_replication_target("right").map(|id| id == 2), Some(true));
    assert!(store.pick_excess_shard("many").is_some());
    assert_eq!(store.pick_excess_shard("few"), None);
    assert_eq!(store.healthy_shards(), vec![0, 1, 2]);
    assert_eq!(store.shard_object_counts(), vec![(0, 3), (1, 2), (2, 1)]);
}

#[test]
fn saving_clears_what_is_unsaved() {
    let mut store = ShardedObjectStore::new(1, 1);
    assert_eq!(store.save_catalog_if_dirty(true), Ok(false));
    put(&mut store, "k", &[0]);
    assert!(store.catalog_is_dirty());
    assert_eq!(store.save_catalog_if_dirty(false), Err(()));
    assert!(store.catalog_is_dirty());
    assert_eq!(store.save_catalog_if_dirty(true), Ok(true));
    assert!(!store.catalog_is_dirty());
}

#[test]
fn a_loaded_catalog_replaces_the_one_before() {
    let mut store = ShardedObjectStore::new(2, 1);
    put(&mut store, "old", &[0]);
    let mut other = ShardedObjectStore::new(2, 1);
    put(&mut other, "new", &[1]);
    let mut entries = StringMap::new();
    for (key, entry) in other.catalog().all_entries() {
        entries.insert(key, entry);
    }
    store.load_catalog(Catalog::from_entries(entries));
    assert!(store.placement("old").is_none());
    assert_eq!(store.placement("new").unwrap().shards, vec![1]);
    assert!(!store.catalog_is_dirty());
}

#[test]
fn a_shard_is_taken_away_as_of_now() {
    let mut store = ShardedObjectStore::new(2, 2);
    store.set_persistence(CatalogPersistence::Bincode { path: "/c".to_string() });
    assert!(matches!(store.persistence(), CatalogPersistence::Bincode { .. }));
    assert_eq!(store.detach_shard(0), Some(ShardHealth::Healthy));
    assert_eq!(store.shard_health(0), Some(ShardHealth::Offline));
    assert!(store.shard_offline_since(0).is_some());
    assert_eq!(store.hold_offline(1, true, DetachReason::Drain), Some(ShardHealth::Healthy));
    assert_eq!(store.shard_health(1), Some(ShardHealth::Detached));
    assert_eq!(store.shard_detach_reason(1), Some(DetachReason::Drain));
    assert_eq!(store.detach_shard(2), None);
}

#[test]
fn a_replica_follows_puts_and_deletions() {
    let mut store = ShardedObjectStore::new(2, 2);
    assert_eq!(store.subscribe_streaming_replica(), Ok(()));
    let event = StoreEvent::Put { key: "a/b".to_string() };
    store.follow_event(&event, None, at(1));
    assert!(store.placement("a/b").is_none());
    store.follow_event(&event, Some(99), at(2));
    let entry = store.placement("a/b").unwrap();
    assert_eq!(entry.shards, vec![0, 1]);
    assert_eq!((entry.size, entry.crc32c, entry.updated, entry.meta_len), (99, None, at(2), 0));
    store.follow_event(&StoreEvent::Flush { shard_id: 0, txn_id: 3 }, None, at(3));
    assert!(store.placement("a/b").is_some());
    store.follow_event(&StoreEvent::Delete { key: "a/b".to_string() }, None, at(4));
    assert!(store.placement("a/b").is_none());
}

#[test]
fn only_a_mirror_follows_events() {
    let store = ShardedObjectStore::new(3, 2);
    assert_eq!(
        store.subscribe_streaming_replica(),
        Err("streaming replica requires rf=1 with 1 shard or rf=shard_count (mirror mode), got rf=2 with 3 shards".to_string()),
    );
    assert_eq!(ShardedObjectStore::new(1, 1).subscribe_streaming_replica(), Ok(()));
}

#[test]
fn errors_are_put_in_words() {
    assert_eq!(ShardError::NoShards.message(), "no shards available");
    assert_eq!(ShardError::NotFound("k".to_string()).message(), "object not found: k");
    assert_eq!(
        ShardError::AllReplicasFailed { path: "p".to_string(), errors: vec!["a\"b".to_string()] }.message(),
        "all replicas failed for p: [\"a\\\"b\"]",
    );
    assert_eq!(
        ShardError::InsufficientWrites {
            path: "p".to_string(),
            required: 2,
            actual: 1,
            errors: vec!["x".to_string(), "y".to_string()],
        }
        .message(),
        "insufficient writes for p: required 2, got 1: [\"x\", \"y\"]",
    );
    assert_eq!(ShardError::ObjectStore("e".to_string()).message(), "object_store error: e");
    assert_eq!(ShardError::Io("e".to_string()).message(), "io error: e");
    assert_eq!(ShardError::ReadOnly.message(), "store is read-only");
    assert_eq!(
        ShardError::VacuumOfflineShard { shard_id: 4 }.message(),
        "vacuum requires all shards healthy, but shard 4 is offline",
    );
    assert_eq!(ShardError::VacuumAlreadyRunning.message(), "vacuum is already running");
}
