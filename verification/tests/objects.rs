//! Putting, reading, deleting and listing objects.

use shardedobjstr::delete::{DeleteAnswer, DeleteJob, DeletePlan};
use shardedobjstr::error::ShardError;
use shardedobjstr::persistence::payload_checksum;
use shardedobjstr::put::{copy_if_not_exists, put_opts, PutJob, PutMode, PutRefusal, RequestedMode};
use shardedobjstr::read::{ReadAnswer, ReadJob, ReadKind, ReadStep};
use shardedobjstr::store::{ReadPreference, ShardHealth, ShardedObjectStore};
use shardedobjstr::time::Timestamp;
use shardedobjstr::writes::WriteStep;

fn at(secs: i64) -> Timestamp {
    Timestamp { secs, nanos: 0 }
}

fn failed(n: usize) -> Option<String> {
    Some(format!("disk {n} is full"))
}

#[test]
fn what_is_put_is_read_back() {
    let mut store = ShardedObjectStore::new(2, 2);
    let mut job = PutJob::begin(&mut store, PutMode::Overwrite, "a/b", b"hello", at(1)).unwrap();
    assert_eq!(job.asked(), &vec![0, 1]);
    let step = job.report(&mut store, &vec![None, None], at(2));
    assert!(matches!(step, WriteStep::Done(placed) if placed == vec![0, 1]));
    let entry = store.placement("a/b").unwrap();
    assert_eq!(entry.shards, vec![0, 1]);
    assert_eq!(entry.size, 5);
    assert_eq!(entry.crc32c, Some(payload_checksum(b"hello")));
    assert_eq!(entry.updated, at(2));

    let mut read = ReadJob::begin(&mut store, ReadKind::Get, "a/b").unwrap();
    assert!(matches!(read.next(), ReadStep::Ask(0)));
    let found = ReadAnswer::Found { head_size: None, raw: None };
    let step = read.report(&mut store, &found, at(3));
    assert!(matches!(step, ReadStep::Done { shard: 0, repairs } if repairs.is_empty()));
    assert_eq!(store.placement("a/b").unwrap().updated, at(2));
}

#[test]
fn a_put_lives_with_one_failure() {
    let mut store = ShardedObjectStore::new(3, 3);
    let mut job = PutJob::begin(&mut store, PutMode::Overwrite, "k", b"x", at(1)).unwrap();
    let asked = job.asked().clone();
    let step = job.report(&mut store, &vec![None, failed(1), None], at(2));
    let want = vec![asked[0], asked[2]];
    assert!(matches!(step, WriteStep::Done(placed) if placed == want));
    assert_eq!(store.placement("k").unwrap().shards, want);
    assert_ne!(store.shard_health(asked[1]), Some(ShardHealth::Healthy));
}

#[test]
fn a_put_on_too_few_shards_fails_and_cleans_up() {
    let mut store = ShardedObjectStore::new(2, 2).with_min_writes(2);
    let mut job = PutJob::begin(&mut store, PutMode::Overwrite, "k", b"x", at(1)).unwrap();
    let step = job.report(&mut store, &vec![None, failed(1)], at(2));
    match step {
        WriteStep::Fail { error: ShardError::InsufficientWrites { path, required, actual, errors }, cleanup } => {
            assert_eq!((path.as_str(), required, actual), ("k", 2, 1));
            assert_eq!(errors.len(), 1);
            assert_eq!(cleanup, vec![0]);
        }
        other => panic!("unexpected {other:?}"),
    }
    assert!(store.placement("k").is_none());
}

#[test]
fn a_put_that_failed_everywhere_goes_elsewhere_once() {
    let mut store = ShardedObjectStore::new(4, 2);
    let mut job = PutJob::begin(&mut store, PutMode::Overwrite, "k", b"x", at(1)).unwrap();
    let first = job.asked().clone();
    assert_eq!(first.len(), 2);
    let retry = match job.report(&mut store, &vec![failed(0), failed(1)], at(2)) {
        WriteStep::Write(ids) => ids,
        other => panic!("unexpected {other:?}"),
    };
    assert_eq!(retry.len(), 2);
    for id in &retry {
        assert!(!first.contains(id));
    }
    assert_eq!(store.shard_health(first[0]), Some(ShardHealth::Offline));
    let step = job.report(&mut store, &vec![None, None], at(3));
    assert!(matches!(step, WriteStep::Done(placed) if placed == retry));
}

#[test]
fn a_put_that_fails_leaves_no_trace() {
    let mut store = ShardedObjectStore::new(2, 2);
    let mut job = PutJob::begin(&mut store, PutMode::Create, "new", b"x", at(1)).unwrap();
    assert!(store.placement("new").is_some());
    let mut step = job.report(&mut store, &vec![failed(0), failed(1)], at(2));
    while let WriteStep::Write(ids) = step {
        let answers = ids.iter().map(|n| failed(*n)).collect();
        step = job.report(&mut store, &answers, at(3));
    }
    assert!(matches!(step, WriteStep::Fail { .. }));
    assert!(store.placement("new").is_none());
}

#[test]
fn puts_are_refused_for_a_reason() {
    let mut store = ShardedObjectStore::new(2, 2);
    store.catalog_mut().put_at("old".to_string(), vec![0], 1, None, 0, at(1));
    assert_eq!(
        PutJob::begin(&mut store, PutMode::Create, "old", b"x", at(1)).err(),
        Some(PutRefusal::AlreadyExists),
    );
    assert_eq!(copy_if_not_exists(&store, "old"), Err(PutRefusal::AlreadyExists));
    assert_eq!(copy_if_not_exists(&store, "new"), Ok(()));
    assert_eq!(put_opts(&store, RequestedMode::Create), Ok(PutMode::Create));
    assert_eq!(
        put_opts(&store, RequestedMode::Update { has_tag: true, has_version: false }),
        Err(PutRefusal::Precondition),
    );
    assert_eq!(
        put_opts(&store, RequestedMode::Update { has_tag: false, has_version: false }),
        Ok(PutMode::Overwrite),
    );
    let mut none = ShardedObjectStore::new(0, 1);
    assert_eq!(
        PutJob::begin(&mut none, PutMode::Overwrite, "k", b"x", at(1)).err(),
        Some(PutRefusal::NoShards),
    );
    let mut store = store.with_read_only(true);
    assert_eq!(
        PutJob::begin(&mut store, PutMode::Overwrite, "k", b"x", at(1)).err(),
        Some(PutRefusal::ReadOnly),
    );
    assert_eq!(store.delete("k"), DeletePlan::ReadOnly);
}

#[test]
fn a_repair_that_cannot_be_begun_is_not_counted() {
    let mut store = ShardedObjectStore::new(2, 2);
    store.set_read_preference(ReadPreference::Ordered);
    store.catalog_mut().put_at("k".to_string(), vec![0, 1], 5, None, 0, at(1));
    let mut read = ReadJob::begin(&mut store, ReadKind::Get, "k").unwrap();
    let corrupt = ReadAnswer::Failed("data corruption".to_string());
    assert!(matches!(read.report(&mut store, &corrupt, at(2)), ReadStep::Ask(1)));
    store.set_shard_health_at(0, ShardHealth::Offline, at(3));
    let found = ReadAnswer::Found { head_size: None, raw: None };
    let step = read.report(&mut store, &found, at(4));
    assert!(matches!(step, ReadStep::Done { shard: 1, repairs } if repairs.is_empty()));
    assert_eq!(store.read_repair_count(), 0);
}

#[test]
fn a_read_goes_on_after_corrupt_data_and_repairs_it() {
    let mut store = ShardedObjectStore::new(2, 2);
    store.set_read_preference(ReadPreference::Ordered);
    store.catalog_mut().put_at("k".to_string(), vec![0, 1], 5, None, 0, at(1));
    let mut read = ReadJob::begin(&mut store, ReadKind::Get, "k").unwrap();
    let corrupt = ReadAnswer::Failed("Generic error: data corruption in block 3".to_string());
    assert!(matches!(read.report(&mut store, &corrupt, at(2)), ReadStep::Ask(1)));
    assert_eq!(store.placement("k").unwrap().shards, vec![1]);
    assert_eq!(store.shard_crc_error_count(0), 1);
    let found = ReadAnswer::Found { head_size: None, raw: None };
    let step = read.report(&mut store, &found, at(3));
    assert!(matches!(step, ReadStep::Done { shard: 1, repairs } if repairs == vec![0]));
    assert_eq!(store.read_repair_count(), 1);
    store.end_read_repair("k", 0, Some((5, 0)), at(4));
    assert_eq!(store.placement("k").unwrap().shards, vec![1, 0]);
    assert_eq!((store.read_repair_success(), store.read_repair_failed()), (1, 0));
    store.end_read_repair("k", 0, None, at(5));
    assert_eq!(store.read_repair_failed(), 1);
}

#[test]
fn a_read_without_an_entry_finds_and_records_the_object() {
    let mut store = ShardedObjectStore::new(2, 1);
    let mut read = ReadJob::begin_for_hash(&mut store, ReadKind::Get, "lost", 0).unwrap();
    let missing = ReadAnswer::Failed("not found".to_string());
    let first = match read.next() {
        ReadStep::Ask(id) => id,
        other => panic!("unexpected {other:?}"),
    };
    let second = match read.report(&mut store, &missing, at(1)) {
        ReadStep::Ask(id) => id,
        other => panic!("unexpected {other:?}"),
    };
    assert_ne!(first, second);
    let found = ReadAnswer::Found { head_size: Some(12), raw: None };
    assert!(matches!(read.report(&mut store, &found, at(2)), ReadStep::Done { shard, .. } if shard == second));
    let entry = store.placement("lost").unwrap();
    assert_eq!((entry.shards, entry.size), (vec![second], 12));
}

#[test]
fn a_read_of_nothing_ends() {
    let mut none = ShardedObjectStore::new(0, 1);
    let read = ReadJob::begin(&mut none, ReadKind::Get, "k").unwrap();
    assert!(matches!(read.next(), ReadStep::NotFound));
    let mut one = ShardedObjectStore::new(1, 1);
    let mut read = ReadJob::begin(&mut one, ReadKind::Head, "k").unwrap();
    let step = read.report(&mut one, &ReadAnswer::Failed("no".to_string()), at(1));
    assert!(matches!(step, ReadStep::LastError));
}

#[test]
fn a_read_hides_delete_markers() {
    let mut store = ShardedObjectStore::new(1, 1);
    let marker = ShardedObjectStore::delete_marker_key("k");
    assert!(ReadJob::begin(&mut store, ReadKind::Get, &marker).is_none());
    assert!(ReadJob::begin(&mut store, ReadKind::Head, &marker).is_none());
    assert!(ReadJob::begin(&mut store, ReadKind::RawGet, &marker).is_some());
}

#[test]
fn a_delete_takes_out_what_is_gone() {
    let mut store = ShardedObjectStore::new(3, 3);
    store.catalog_mut().put_at("k".to_string(), vec![0, 1, 2], 5, None, 0, at(1));
    let job = DeleteJob::begin(&store, "k");
    assert_eq!(job.asked(), &vec![0, 1, 2]);
    let answers = vec![
        DeleteAnswer::Deleted,
        DeleteAnswer::Failed("busy".to_string()),
        DeleteAnswer::NotFound,
    ];
    assert_eq!(job.report(&mut store, &answers), Ok(()));
    assert_eq!(store.placement("k").unwrap().shards, vec![1]);
    let job = DeleteJob::begin(&store, "k");
    assert_eq!(job.report(&mut store, &vec![DeleteAnswer::Deleted]), Ok(()));
    assert!(store.placement("k").is_none());
}

#[test]
fn a_delete_that_fails_everywhere_fails() {
    let mut store = ShardedObjectStore::new(2, 2);
    store.catalog_mut().put_at("k".to_string(), vec![0, 1], 5, None, 0, at(1));
    let job = DeleteJob::begin(&store, "k");
    let answers =
        vec![DeleteAnswer::Failed("busy".to_string()), DeleteAnswer::Failed("gone".to_string())];
    assert_eq!(job.report(&mut store, &answers), Err("gone".to_string()));
    assert_eq!(store.placement("k").unwrap().shards, vec![0, 1]);
}

#[test]
fn a_strict_delete_needs_enough_shards() {
    let mut store = ShardedObjectStore::new(3, 3).with_delete_requires_min_writes(true);
    assert_eq!(store.min_writes(), 2);
    store.catalog_mut().put_at("k".to_string(), vec![0, 1, 2], 5, None, 0, at(1));
    let job = DeleteJob::begin(&store, "k");
    let answers = vec![
        DeleteAnswer::Deleted,
        DeleteAnswer::Failed("busy".to_string()),
        DeleteAnswer::Failed("gone".to_string()),
    ];
    assert_eq!(job.report(&mut store, &answers), Err("gone".to_string()));
    assert_eq!(store.placement("k").unwrap().shards, vec![1, 2]);
}

#[test]
fn a_delete_may_need_markers_first() {
    let store = ShardedObjectStore::new(3, 3);
    let plan = store.delete("k");
    assert!(matches!(plan, DeletePlan::Direct | DeletePlan::MarkerFirst(_)));
    let store = store.with_delete_requires_min_writes(true);
    assert_eq!(store.delete("k"), DeletePlan::MarkerFirst(PutMode::StrictMarker));
}

#[test]
fn listings_show_directories_and_hide_markers() {
    let mut store = ShardedObjectStore::new(1, 1);
    for key in ["a/1", "a/2", "a/sub/3", "b"] {
        store.catalog_mut().put_at(key.to_string(), vec![0], 5, None, 0, at(1));
    }
    let marker = ShardedObjectStore::delete_marker_key("a/gone");
    store.catalog_mut().put_at(marker, vec![0], 5, None, 0, at(1));
    let all: Vec<String> = store.list(None).into_iter().map(|o| o.location).collect();
    assert_eq!(all, vec!["a/1", "a/2", "a/sub/3", "b"]);
    let some: Vec<String> = store.list(Some("a")).into_iter().map(|o| o.location).collect();
    assert_eq!(some, vec!["a/1", "a/2", "a/sub/3"]);
    let r = store.list_with_delimiter(Some("a"));
    assert_eq!(r.common_prefixes, vec!["a/sub"]);
    let objects: Vec<String> = r.objects.into_iter().map(|o| o.location).collect();
    assert_eq!(objects, vec!["a/1", "a/2"]);
    let r = store.list_with_delimiter(None);
    assert_eq!(r.common_prefixes, vec!["a"]);
    assert_eq!(r.objects.len(), 1);
}
