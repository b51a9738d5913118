//! Multipart uploads and objects with metadata.

use object_store::{Attribute, Attributes};
use shardedobjstr::catalog::ObjectMeta;
use shardedobjstr::digest::RunningCrc;
use shardedobjstr::error::ShardError;
use shardedobjstr::meta_put::{
    can_stream, put_with_meta, put_with_meta_from_file, split_file, try_put_shard,
    write_with_meta_to_shard, MetaPutStep, ShardWrite,
};
use shardedobjstr::meta_read::{
    delete_sidecar, encode_attributes, is_consistent, list_with_meta,
    read_metadata_from_shard, read_object_metadata, MetaJob, MetaMiss, MetaObject, MetaOp, MetaStep,
};
use shardedobjstr::metadata::{
    cleanup_sidecar, cleanup_sidecar_maybe, is_sidecar, RawRefRegistry, ShardKind,
};
use shardedobjstr::multipart::{MultipartStart, StartStep};
use shardedobjstr::persistence::payload_checksum;
use shardedobjstr::put::PutRefusal;
use shardedobjstr::store::{ReadPreference, ShardHealth, ShardedObjectStore};
use shardedobjstr::string_map::StringMap;
use shardedobjstr::time::Timestamp;
use shardedobjstr::tlv::{decode_metadata, encode_metadata};

fn at(secs: i64) -> Timestamp {
    Timestamp { secs, nanos: 0 }
}

fn registry() -> RawRefRegistry {
    RawRefRegistry::new(
        vec![Some(7), None, None],
        vec![ShardKind::Raw, ShardKind::S3Like, ShardKind::Sidecar],
    )
}

fn some_metadata() -> Vec<u8> {
    let mut meta = StringMap::new();
    meta.insert("content-type".to_string(), "text/plain".to_string());
    meta.insert("x-amz-meta-author".to_string(), "alice".to_string());
    encode_metadata(&meta).unwrap()
}

#[test]
fn uploads_are_tracked_and_expire() {
    let mut store = ShardedObjectStore::new(2, 2).with_multipart_expiry(1_000_000_000);
    let a = store.register_multipart("a", 0, 0);
    let b = store.register_multipart("b", 1, 1_500_000_000);
    assert_eq!(store.multipart_upload_count(), 2);
    let listed = store.list_multipart_uploads(2_000_000_000);
    assert_eq!(listed, vec![(a, "a".to_string(), 2, 0), (b, "b".to_string(), 0, 1)]);
    let purged = store.purge_stale_multiparts(2_000_000_000);
    assert_eq!(purged.len(), 1);
    assert_eq!((purged[0].id, purged[0].location.as_str()), (a, "a"));
    store.deregister_multipart(b);
    assert_eq!(store.multipart_upload_count(), 0);
}

#[test]
fn an_upload_is_assembled_and_replicated() {
    let mut store = ShardedObjectStore::new(3, 3);
    let start = MultipartStart::begin(&store, "big").unwrap();
    let primary = start.primary();
    let job = match start.report(&mut store, true, 5, at(1)) {
        StartStep::Started(job) => job,
        other => panic!("unexpected {other:?}"),
    };
    assert_eq!(job.primary(), primary);
    assert_eq!(job.replicas().len(), 2);
    assert_eq!(store.multipart_upload_count(), 1);
    job.assembled(&mut store);
    assert_eq!(store.multipart_upload_count(), 0);
    let r = job.complete(&mut store, b"data", 0, &vec![None, Some("full".to_string())], at(2));
    assert!(r.is_ok());
    let entry = store.placement("big").unwrap();
    assert_eq!(entry.shards, vec![primary, job.replicas()[0]]);
    assert_eq!((entry.size, entry.crc32c), (4, Some(payload_checksum(b"data"))));
}

#[test]
fn an_upload_on_too_few_shards_fails() {
    let mut store = ShardedObjectStore::new(3, 3).with_min_writes(3);
    let start = MultipartStart::begin(&store, "big").unwrap();
    let job = match start.report(&mut store, true, 5, at(1)) {
        StartStep::Started(job) => job,
        other => panic!("unexpected {other:?}"),
    };
    job.assembled(&mut store);
    let r = job.complete(&mut store, b"data", 0, &vec![None, Some("full".to_string())], at(2));
    let failure = r.unwrap_err();
    assert!(matches!(
        failure.error,
        ShardError::InsufficientWrites { required: 3, actual: 2, .. }
    ));
    assert_eq!(failure.cleanup.len(), 2);
    assert!(store.placement("big").is_none());
}

#[test]
fn an_upload_starts_elsewhere_once() {
    let mut store = ShardedObjectStore::new(2, 1);
    let start = MultipartStart::begin(&store, "big").unwrap();
    let first = start.primary();
    let second = match start.report(&mut store, false, 5, at(1)) {
        StartStep::Start(again) => again,
        other => panic!("unexpected {other:?}"),
    };
    assert_ne!(second.primary(), first);
    assert_eq!(store.shard_health(first), Some(ShardHealth::Offline));
    assert!(matches!(second.report(&mut store, false, 5, at(1)), StartStep::Failed));
    assert_eq!(
        MultipartStart::begin(&ShardedObjectStore::new(1, 1).with_read_only(true), "k").err(),
        Some(PutRefusal::ReadOnly),
    );
    assert_eq!(
        MultipartStart::begin(&ShardedObjectStore::new(0, 1), "k").err(),
        Some(PutRefusal::NoShards),
    );
}

#[test]
fn a_registry_tells_kinds_and_handles() {
    let refs = registry();
    assert_eq!((refs.get(0), refs.get(1), refs.get(9)), (Some(7), None, None));
    assert_eq!(refs.kind(1), ShardKind::S3Like);
    assert_eq!(refs.all_raw(), vec![7]);
    assert_eq!(refs.first_raw(), Some(7));
    assert_eq!(refs.shard_count(), 3);
    assert!(is_consistent(&refs));
    assert!(!is_consistent(&RawRefRegistry::new(vec![None], vec![ShardKind::Raw])));
    assert_eq!(RawRefRegistry::single(3).get(0), Some(3));
}

#[test]
fn sidecars_are_cleaned_where_they_are_kept() {
    assert_eq!(cleanup_sidecar("a", ShardKind::Sidecar), Some("a.__meta__".to_string()));
    assert_eq!(cleanup_sidecar("a", ShardKind::Raw), None);
    assert_eq!(cleanup_sidecar_maybe("a", Some(&registry()), 2), Some("a.__meta__".to_string()));
    assert_eq!(cleanup_sidecar_maybe("a", Some(&registry()), 0), None);
    assert!(is_sidecar("a.__meta__"));
    assert!(!is_sidecar("a"));
}

#[test]
fn metadata_is_written_as_a_shard_keeps_it() {
    let store = ShardedObjectStore::new(3, 3);
    let meta = some_metadata();
    assert!(matches!(try_put_shard(&store, &registry(), 0, "a", &meta), ShardWrite::Raw(7)));
    match try_put_shard(&store, &registry(), 1, "a", &meta) {
        ShardWrite::Attributes(a) => {
            assert_eq!(a.get(&Attribute::ContentType).map(|v| v.as_ref()), Some("text/plain"));
        }
        _ => panic!("attributes"),
    }
    assert!(matches!(
        try_put_shard(&store, &registry(), 2, "a", &meta),
        ShardWrite::Sidecar(Some(p)) if p == "a.__meta__"
    ));
    assert!(matches!(try_put_shard(&store, &registry(), 9, "a", &meta), ShardWrite::Missing(_)));
    assert!(matches!(write_with_meta_to_shard(None, 0, "a", &meta), ShardWrite::Plain));
}

#[test]
fn a_put_with_metadata_is_recorded() {
    let mut store = ShardedObjectStore::new(3, 3);
    let refs = registry();
    let meta = some_metadata();
    let mut job = put_with_meta(&store, &refs, "k", b"body", &meta).unwrap();
    assert_eq!(job.asked(), &vec![0, 1, 2]);
    let step = job.report(&mut store, &refs, &vec![None, None, Some("full".to_string())], at(3));
    assert!(matches!(step, MetaPutStep::Done));
    let entry = store.placement("k").unwrap();
    assert_eq!(entry.shards, vec![0, 1]);
    assert_eq!((entry.size, entry.crc32c), (4, Some(payload_checksum(b"body"))));
    assert_eq!(entry.meta_len as usize, meta.len());
    assert!(put_with_meta(&store.with_read_only(true), &refs, "k", b"body", &meta).is_none());
}

#[test]
fn a_put_with_metadata_on_too_few_shards_fails() {
    let mut store = ShardedObjectStore::new(3, 3);
    let refs = registry();
    let mut job = put_with_meta(&store, &refs, "k", b"body", &some_metadata()).unwrap();
    let full = Some("full".to_string());
    let step = job.report(&mut store, &refs, &vec![None, full.clone(), full], at(3));
    assert!(matches!(
        step,
        MetaPutStep::Insufficient { required: 2, actual: 1, cleanup } if cleanup == vec![0]
    ));
}

#[test]
fn a_file_is_streamed_to_raw_shards() {
    let mut store = ShardedObjectStore::new(2, 2);
    let raw = RawRefRegistry::new(vec![Some(1), Some(2)], vec![ShardKind::Raw, ShardKind::Raw]);
    assert!(can_stream(&store, &raw, "k"));
    let mixed = RawRefRegistry::new(vec![Some(1), None], vec![ShardKind::Raw, ShardKind::S3Like]);
    assert!(!can_stream(&store, &mixed, "k"));
    let mut crc = RunningCrc::new();
    crc.update(b"bo");
    crc.update(b"dy");
    let mut job = put_with_meta_from_file(&store, &raw, "k", 7, &crc, 3).unwrap();
    let step = job.report(&mut store, &raw, &vec![None, None], at(3));
    assert!(matches!(step, MetaPutStep::Done));
    let entry = store.placement("k").unwrap();
    assert_eq!((entry.size, entry.meta_len, entry.crc32c), (4, 3, Some(payload_checksum(b"body"))));
    assert_eq!(split_file(&b"bodymet".to_vec(), 3), (b"body".to_vec(), b"met".to_vec()));
    let store = store.with_read_only(true);
    assert!(put_with_meta_from_file(&store, &raw, "k", 7, &crc, 3).is_none());
}

#[test]
fn metadata_is_read_as_a_shard_keeps_it() {
    let refs = registry();
    let mut attributes = Attributes::new();
    attributes.insert(Attribute::ContentType, "text/plain".into());
    let from_attributes = read_metadata_from_shard(&refs, 1, &attributes, None).unwrap();
    assert_eq!(decode_metadata(&from_attributes).get("content-type").map(|s| s.as_str()), Some("text/plain"));
    assert_eq!(from_attributes, encode_attributes(&attributes));
    assert_eq!(read_metadata_from_shard(&refs, 2, &attributes, Some(vec![9])), Some(vec![9]));
    assert_eq!(read_object_metadata(Some(vec![4]), &attributes), vec![4]);
}

#[test]
fn metadata_is_asked_of_one_shard_after_the_other() {
    let mut store = ShardedObjectStore::new(3, 3);
    store.set_read_preference(ReadPreference::Ordered);
    store.catalog_mut().put_at("k".to_string(), vec![0, 2], 5, None, 9, at(1));
    let refs = registry();
    let mut job = MetaJob::begin(&mut store, MetaOp::Head, "k").unwrap();
    assert!(matches!(job.next(&store, &refs), MetaStep::AskRaw { shard: 0, raw: 7 }));
    job.missed(&MetaMiss::Failed("down".to_string()));
    assert!(matches!(job.next(&store, &refs), MetaStep::AskStore { shard: 2, .. }));
    assert_eq!(job.meta_len(&store, Some(4)), 4);
    job.missed(&MetaMiss::NotFound);
    assert!(matches!(job.next(&store, &refs), MetaStep::Failed(e) if e == "down"));
}

#[test]
fn a_listing_with_metadata_shows_each_object_once() {
    let store = ShardedObjectStore::new(3, 3);
    let object = |location: &str| MetaObject {
        object: ObjectMeta {
            location: location.to_string(),
            last_modified: at(1),
            size: 3,
            e_tag: None,
            version: None,
        },
        meta_len: 2,
    };
    let lists = vec![
        vec![object("b"), object("a")],
        vec![object("a"), object(&ShardedObjectStore::delete_marker_key("d"))],
        vec![object("c"), object("c.__meta__")],
    ];
    let r = list_with_meta(&store, &registry(), &lists);
    let mut names: Vec<String> = r.into_iter().map(|o| o.object.location).collect();
    names.sort();
    assert_eq!(names, vec!["a", "b", "c"]);
}

#[test]
fn an_upload_without_replicas_is_recorded() {
    let mut store = ShardedObjectStore::new(1, 1);
    store.set_raw_refs(RawRefRegistry::single(3));
    let start = MultipartStart::begin(&store, "one").unwrap();
    let job = match start.report(&mut store, true, 5, at(1)) {
        StartStep::Started(job) => job,
        other => panic!("unexpected {other:?}"),
    };
    assert!(job.replicas().is_empty());
    let mut crc = RunningCrc::new();
    crc.update(b"he");
    crc.update(b"llo");
    assert!(job.complete_single(&mut store, 5, &crc, Some(9), at(2)).is_ok());
    let entry = store.placement("one").unwrap();
    assert_eq!((entry.shards.clone(), entry.size, entry.meta_len), (vec![0], 5, 9));
    assert_eq!(entry.crc32c, Some(payload_checksum(b"hello")));
}

#[test]
fn an_upload_without_replicas_may_be_on_too_few_shards() {
    let mut store = ShardedObjectStore::new(2, 2).with_min_writes(2);
    store.set_shard_health_at(1, ShardHealth::Offline, at(1));
    let start = MultipartStart::begin(&store, "one").unwrap();
    let job = match start.report(&mut store, true, 5, at(1)) {
        StartStep::Started(job) => job,
        other => panic!("unexpected {other:?}"),
    };
    assert!(job.replicas().is_empty());
    let failed = job.complete_single(&mut store, 0, &RunningCrc::new(), None, at(2)).unwrap_err();
    assert_eq!(failed.cleanup, vec![0]);
    assert_eq!(
        failed.error.message(),
        "insufficient writes for one: required 2, got 1: []",
    );
    assert!(store.placement("one").is_none());
}

#[test]
fn an_aborted_upload_is_forgotten() {
    let mut store = ShardedObjectStore::new(2, 1);
    let start = MultipartStart::begin(&store, "big").unwrap();
    let job = match start.report(&mut store, true, 5, at(1)) {
        StartStep::Started(job) => job,
        other => panic!("unexpected {other:?}"),
    };
    assert_eq!(store.multipart_upload_count(), 1);
    job.abort(&mut store);
    assert_eq!(store.multipart_upload_count(), 0);
    assert!(store.placement("big").is_none());
}

#[test]
fn sidecars_are_deleted_where_an_object_would_go() {
    let store = ShardedObjectStore::new(3, 3);
    assert_eq!(delete_sidecar(&store, &registry(), "k"), vec![2]);
    let store = store.with_read_only(true);
    assert_eq!(delete_sidecar(&store, &registry(), "k"), Vec::<usize>::new());
}

#[test]
fn metadata_is_read_only_where_there_may_be_some() {
    let mut store = ShardedObjectStore::new(3, 2);
    store.catalog_mut().put_at("none".to_string(), vec![0], 1, None, 0, at(1));
    store.catalog_mut().put_at("some".to_string(), vec![0], 1, None, 4, at(1));
    store.catalog_mut().put_at("away".to_string(), vec![1], 1, None, 0, at(1));
    assert!(!store.wants_source_metadata("none"));
    assert!(store.wants_source_metadata("some"));
    assert!(store.wants_source_metadata("unknown"));
    assert!(!store.wants_object_metadata("some"));
    assert!(!store.copies_with_metadata(4));
    store.set_raw_refs(registry());
    assert!(!store.wants_object_metadata("none"));
    assert!(store.wants_object_metadata("some"));
    assert!(store.wants_object_metadata("away"));
    assert!(store.wants_object_metadata("unknown"));
    assert!(store.copies_with_metadata(4));
    assert!(!store.copies_with_metadata(0));
}
