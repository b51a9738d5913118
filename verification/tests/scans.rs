//! Scanning, verifying and comparing what shards hold.

use shardedobjstr::cross_verify::{HeadInfo, ShardObjectDigest};
use shardedobjstr::error::ShardError;
use shardedobjstr::persistence::payload_checksum;
use shardedobjstr::scan::Scanned;
use shardedobjstr::store::{ShardHealth, ShardedObjectStore};
use shardedobjstr::time::Timestamp;

fn at(secs: i64) -> Timestamp {
    Timestamp { secs, nanos: 0 }
}

fn put(store: &mut ShardedObjectStore, key: &str, shards: &[usize], crc: Option<u32>) {
    store.catalog_mut().put_at(key.to_string(), shards.to_vec(), 10, crc, 0, at(100));
}

fn scanned(location: &str, size: u64) -> Scanned {
    Scanned { location: location.to_string(), size, last_modified: at(7), meta_len: 0 }
}

#[test]
fn a_catalog_is_rebuilt_from_listings() {
    let mut store = ShardedObjectStore::new(3, 2);
    put(&mut store, "stale", &[0], None);
    let scans = vec![
        (0, Some(vec![scanned("a", 1), scanned("b", 2)])),
        (1, None),
        (2, Some(vec![scanned("a", 1)])),
    ];
    store.rebuild_catalog(&scans);
    assert_eq!(store.catalog().keys(None), vec!["a", "b"]);
    assert_eq!(store.placement("a").unwrap().shards, vec![0, 2]);
    assert_eq!(store.placement("b").unwrap().shards, vec![0]);
    assert_eq!(store.placement("b").unwrap().size, 2);
}

#[test]
fn one_shard_is_scanned_again() {
    let mut store = ShardedObjectStore::new(2, 2);
    put(&mut store, "both", &[0, 1], None);
    put(&mut store, "only", &[1], None);
    let n = store.rebuild_catalog_for_shard(1, &Ok(vec![scanned("new", 4)]), at(8));
    assert!(n.is_ok());
    assert_eq!(store.placement("new").unwrap().shards, vec![1]);
    assert!(store.rebuild_catalog_for_shard(9, &Ok(vec![]), at(8)).is_err());
    assert!(store.rebuild_catalog_for_shard(1, &Err("gone".to_string()), at(8)).is_err());
}

#[test]
fn an_invalidated_shard_reports_what_is_missing() {
    let mut store = ShardedObjectStore::new(2, 2);
    put(&mut store, "both", &[0, 1], None);
    put(&mut store, "only", &[1], None);
    let job = store.invalidate_shard(1).unwrap();
    assert_eq!(store.placement("both").unwrap().shards, vec![0]);
    assert!(store.placement("only").is_none());
    let report = job.finish(&mut store, &Ok(vec![scanned("both", 10)]), at(9));
    assert_eq!((report.shard_id, report.entries_purged, report.entries_restored), (1, 2, 1));
    assert_eq!(report.missing_keys, vec!["only"]);
    assert!(report.scan_ok);
    assert_eq!(store.placement("both").unwrap().shards, vec![0, 1]);
    assert!(store.invalidate_shard(2).is_err());
}

#[test]
fn an_attached_shard_is_healthy() {
    let mut store = ShardedObjectStore::new(2, 2);
    store.set_shard_health_at(1, ShardHealth::Offline, at(1));
    let job = store.attach_shard(1, true).unwrap();
    assert_eq!(store.shard_health(1), Some(ShardHealth::Syncing));
    assert_eq!(store.select_targets("new"), vec![0]);
    assert!(job.finish(&mut store, &Ok(vec![scanned("x", 1)]), at(9)).is_ok());
    assert_eq!(store.shard_health(1), Some(ShardHealth::Healthy));
    assert_eq!(store.select_targets("new"), vec![0, 1]);
    assert_eq!(store.placement("x").unwrap().shards, vec![1]);
    assert!(store.attach_shard(5, true).is_err());
}

#[test]
fn copies_are_recorded_and_dropped() {
    let mut store = ShardedObjectStore::new(3, 2);
    put(&mut store, "k", &[0], Some(1));
    assert!(store.replicate_object(0, 1).is_ok());
    assert!(store.replicate_object(0, 7).is_err());
    store.record_copy("k", 1, 10, Some(4), at(3));
    assert_eq!(store.placement("k").unwrap().shards, vec![0, 1]);
    assert!(store.remove_replica("k", 0, Err("busy".to_string())).is_err());
    assert_eq!(store.placement("k").unwrap().shards, vec![0, 1]);
    assert!(store.remove_replica("k", 0, Ok(())).is_ok());
    assert_eq!(store.placement("k").unwrap().shards, vec![1]);
}

#[test]
fn shards_are_probed_if_they_should_answer() {
    let mut store = ShardedObjectStore::new(4, 2);
    store.set_shard_health_at(1, ShardHealth::Offline, at(1));
    store.set_shard_health_at(2, ShardHealth::Syncing, at(1));
    assert!(store.is_probed(0));
    assert!(!store.is_probed(1));
    let r = store.validate_shard_access(&vec![true, true, true, false]);
    assert_eq!(r, vec![(0, true), (1, false), (2, false), (3, false)]);
}

#[test]
fn an_object_is_verified_copy_by_copy() {
    let crc = payload_checksum(b"hello");
    let mut store = ShardedObjectStore::new(3, 3);
    put(&mut store, "k", &[0, 1, 2], Some(crc));
    let job = store.verify_object("k").unwrap();
    assert_eq!(job.shards(), &vec![0, 1, 2]);
    let fine = job.finish(&vec![Ok(b"hello".to_vec()), Ok(b"hello".to_vec()), Ok(b"hello".to_vec())]);
    assert!(!fine.is_mismatched() && !fine.has_errors());
    assert_eq!(fine.replicas[0].crc32c, Some(crc));
    assert_eq!(fine.replicas[0].matches_catalog, Some(true));
    let differs = job.finish(&vec![Ok(b"hello".to_vec()), Ok(b"hellO".to_vec()), Err("gone".to_string())]);
    assert!(!differs.replicas_consistent);
    assert!(differs.is_mismatched() && differs.has_errors());
    let unread = job.finish(&vec![Ok(b"hello".to_vec()), Ok(b"hello".to_vec()), Err("gone".to_string())]);
    assert!(unread.replicas_consistent);
    assert!(!unread.is_mismatched() && unread.has_errors());
    assert_eq!(unread.replicas[2].error.as_deref(), Some("gone"));
    let all = ShardedObjectStore::verify_all(vec![
        Ok(fine),
        Ok(differs),
        Ok(unread),
        Err(ShardError::NotFound("x".to_string())),
    ]);
    assert_eq!(
        (all.objects_checked, all.objects_ok, all.objects_mismatched, all.objects_with_errors),
        (4, 1, 1, 3),
    );
    assert_eq!(all.details.len(), 2);
    assert!(matches!(store.verify_object("nobody"), Err(ShardError::NotFound(k)) if k == "nobody"));
    assert_eq!(store.verify_keys(None), vec!["k"]);
}

fn digest(shard_id: usize, md5_hex: &str) -> Result<ShardObjectDigest, (usize, String)> {
    Ok(ShardObjectDigest { shard_id, md5_hex: md5_hex.to_string(), size: 3, last_modified: at(1) })
}

#[test]
fn copies_are_compared_by_their_digests() {
    let mut store = ShardedObjectStore::new(3, 2);
    put(&mut store, "k", &[0, 1, 2], Some(5));
    put(&mut store, "single", &[0], None);
    let job = store.cross_verify_object("k").unwrap();
    assert_eq!(job.shards(), &vec![0, 1, 2]);
    let same = job.finish(vec![digest(0, "aa"), digest(1, "aa"), Err((2, "gone".to_string()))]);
    assert!(same.consistent);
    assert_eq!(same.errors, vec![(2, "gone".to_string())]);
    let differs = job.finish(vec![digest(0, "aa"), digest(1, "bb"), digest(2, "aa")]);
    assert!(!differs.consistent);
    assert_eq!(differs.catalog_crc, Some(5));
    let fine = job.finish(vec![digest(0, "aa"), digest(1, "aa"), digest(2, "aa")]);
    let (keys, skipped) = store.cross_verify_keys(None);
    assert_eq!((keys, skipped), (vec!["k".to_string()], 1));
    let both = job.finish(vec![digest(0, "aa"), Err((1, "gone".to_string())), digest(2, "bb")]);
    let lone = job.finish(vec![digest(0, "aa"), Err((1, "x".to_string())), Err((2, "y".to_string()))]);
    assert!(!both.consistent && lone.consistent);
    let results = vec![Ok(same), Ok(differs), Ok(fine), Ok(both), Ok(lone)];
    let all = ShardedObjectStore::cross_verify_all(&results, skipped);
    assert_eq!(
        (all.objects_checked, all.objects_ok, all.objects_mismatched, all.objects_with_errors),
        (5, 1, 2, 3),
    );
    assert_eq!(all.details.len(), 4);
    assert_eq!(all.objects_skipped_single_replica, 1);
}

#[test]
fn a_digest_comes_from_a_tag_if_it_can() {
    let hex = "900150983cd24fb0d6963f7d28e17f72";
    let head = |tag: Option<&str>| {
        Ok(HeadInfo { e_tag: tag.map(|t| t.to_string()), size: 3, last_modified: at(2) })
    };
    let d = ShardedObjectStore::get_shard_md5(4, &head(Some(hex))).unwrap().unwrap();
    assert_eq!((d.shard_id, d.md5_hex.as_str(), d.size), (4, hex, 3));
    assert!(ShardedObjectStore::get_shard_md5(4, &head(Some("5-abc"))).is_none());
    assert!(ShardedObjectStore::get_shard_md5(4, &head(None)).is_none());
    let e = ShardedObjectStore::get_shard_md5(4, &Err("down".to_string())).unwrap().unwrap_err();
    assert_eq!(e, (4, "head failed: down".to_string()));
}
