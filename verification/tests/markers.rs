//! Delete markers, times and catalog files.

use shardedobjstr::error::ShardError;
use shardedobjstr::markers::{delete_marker_path, marker_body, parse_marker, VacuumAction, VacuumReport};
use shardedobjstr::persistence::{
    check_envelope, compare_checksum, frame_payload, payload_checksum, unframe_payload,
    CatalogFormat, CatalogPersistence,
};
use shardedobjstr::store::{ShardHealth, ShardedObjectStore};
use shardedobjstr::time::Timestamp;

fn at(secs: i64) -> Timestamp {
    Timestamp { secs, nanos: 0 }
}

#[test]
fn a_marker_is_no_object_and_names_its_key() {
    let marker = ShardedObjectStore::delete_marker_key("a/b");
    assert!(ShardedObjectStore::is_delete_marker(&marker));
    assert!(!ShardedObjectStore::is_delete_marker("a/b"));
    assert_ne!(marker, ShardedObjectStore::delete_marker_key("a/c"));
    assert_eq!(delete_marker_path("a/b"), marker);
    let mut store = ShardedObjectStore::new(1, 1);
    store.catalog_mut().put_at(marker, vec![0], 1, None, 0, at(1));
    assert_eq!(store.marked_keys(), vec!["a/b"]);
}

#[test]
fn a_marker_holds_the_time_of_the_deletion() {
    let time = Timestamp { secs: 1_700_000_000, nanos: 5_000_000 };
    let body = marker_body(&time).unwrap();
    assert!(body.contains("2023-11-14T22:13:20.005+00:00"));
    assert_eq!(parse_marker(body.as_bytes()), Some(time));
    assert_eq!(ShardedObjectStore::get_delete_marker(Some(&body.into_bytes())), Some(time));
    assert_eq!(ShardedObjectStore::get_delete_marker(None), None);
    assert_eq!(parse_marker(b"yesterday"), None);
    assert_eq!(parse_marker(&[0xff, 0xfe]), None);
}

#[test]
fn times_are_written_and_read() {
    let t = Timestamp { secs: -1, nanos: 999_999_999 };
    let s = t.to_rfc3339().unwrap();
    assert_eq!(s, "1969-12-31T23:59:59.999999999+00:00");
    assert_eq!(Timestamp::from_rfc3339(&s), Some(t));
    assert_eq!(Timestamp::from_rfc3339("2025-01-01T01:00:00+01:00"), Some(at(1_735_689_600)));
    assert_eq!(Timestamp::from_rfc3339("2025-13-01T00:00:00Z"), None);
    assert_eq!(Timestamp { secs: i64::MAX, nanos: 0 }.to_rfc3339(), None);
    assert!(at(2).is_after(&at(1)));
    assert!(!at(1).is_after(&at(1)));
    assert!(Timestamp { secs: 1, nanos: 1 }.is_after(&at(1)));
    let now = Timestamp::now();
    assert!(now.is_after(&at(1_500_000_000)));
    assert!(now.nanos < 1_000_000_000);
    assert_eq!(Timestamp::from_rfc3339(&now.to_rfc3339().unwrap()), Some(now));
}

#[test]
fn markers_with_times_are_listed() {
    let keys = vec!["a".to_string(), "b".to_string()];
    let r = ShardedObjectStore::list_delete_markers(&keys, &vec![None, Some(at(4))]);
    assert_eq!(r, vec![("b".to_string(), at(4))]);
}

#[test]
fn a_vacuum_deletes_only_what_was_deleted() {
    let mut report = VacuumReport { purged: 0, cleaned: 0 };
    assert_eq!(report.judge(Some(at(9)), &at(5)), VacuumAction::PurgeStale);
    assert_eq!(report.judge(Some(at(3)), &at(5)), VacuumAction::CleanObject);
    assert_eq!(report.judge(None, &at(5)), VacuumAction::PurgeApplied);
    assert_eq!((report.purged, report.cleaned), (3, 1));
}

#[test]
fn a_vacuum_needs_all_shards_and_runs_once() {
    let mut store = ShardedObjectStore::new(2, 2);
    assert!(store.vacuum_delete_markers().is_ok());
    assert!(matches!(store.vacuum_delete_markers(), Err(ShardError::VacuumAlreadyRunning)));
    store.end_vacuum();
    store.set_shard_health_at(1, ShardHealth::Offline, at(1));
    assert!(matches!(
        store.vacuum_delete_markers(),
        Err(ShardError::VacuumOfflineShard { shard_id: 1 })
    ));
}

#[test]
fn a_file_gives_back_its_payload() {
    let payload = b"some catalog".to_vec();
    let file = frame_payload(&payload);
    assert_eq!(unframe_payload(&file), Ok(payload));
    let mut bad = file.clone();
    let last = bad.len() - 1;
    bad[last] ^= 1;
    assert!(unframe_payload(&bad).unwrap_err().starts_with("catalog checksum mismatch: expected 0x"));
    assert!(unframe_payload(&[1, 2, 3]).is_err());
    assert_eq!(unframe_payload(&frame_payload(&[])), Ok(Vec::new()));
}

#[test]
fn an_envelope_is_checked() {
    let crc = payload_checksum(b"x");
    assert_eq!(check_envelope(crc, b"x"), Ok(()));
    assert!(check_envelope(crc, b"y").is_err());
    assert_eq!(
        compare_checksum(0xDEAD, 0xBEEF),
        Err("catalog checksum mismatch: expected 0x0000DEAD, got 0x0000BEEF".to_string()),
    );
}

#[test]
fn catalogs_are_kept_in_a_format() {
    assert!(CatalogPersistence::Memory.is_none());
    assert_eq!(CatalogPersistence::Memory.save_format(), CatalogFormat::Nothing);
    let json = CatalogPersistence::json("/c");
    assert_eq!((json.save_format(), json.path(), json.is_none()), (CatalogFormat::Json, Some("/c"), false));
    assert_eq!(json.load_format(true), CatalogFormat::Json);
    assert_eq!(json.load_format(false), CatalogFormat::Nothing);
    assert_eq!(CatalogPersistence::bincode("/c").load_format(true), CatalogFormat::Bincode);
}
