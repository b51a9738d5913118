//! Opening clusters and the names that clients use.

use shardedobjstr::config::parse_cluster_conf;
use shardedobjstr::opening::{
    open_cluster, open_cluster_degraded, plan_open, Overrides, Settings, ShardOpening,
};
use shardedobjstr::persistence::CatalogPersistence;
use shardedobjstr::store::{DetachReason, ReadPreference, ShardHealth};
use shardedobjstr::time::Timestamp;

const NOTHING_SAID: Overrides = Overrides { min_writes: None, direct_io: None, read_only: None };

fn settings(replication_factor: usize, min_writes: Option<usize>) -> Settings {
    Settings { replication_factor, min_writes, delete_requires_min_writes: true, read_only: false }
}

#[test]
fn a_cluster_is_opened_with_settings() {
    assert!(open_cluster(0, &settings(1, None)).is_none());
    let store = open_cluster(3, &settings(3, None)).unwrap();
    assert_eq!((store.shard_count(), store.replication_factor(), store.min_writes()), (3, 3, 2));
    assert!(store.delete_requires_min_writes());
    assert!(!store.is_read_only());
    let store = open_cluster(3, &Settings { read_only: true, ..settings(2, Some(9)) }).unwrap();
    assert_eq!(store.min_writes(), 2);
    assert!(store.is_read_only());
}

#[test]
fn a_cluster_is_opened_without_some_shards() {
    let now = Timestamp { secs: 4, nanos: 0 };
    assert!(open_cluster_degraded(&[], &settings(1, None), now).is_none());
    let store = open_cluster_degraded(&[false, true], &settings(2, Some(1)), now).unwrap();
    assert_eq!(store.shard_health(0), Some(ShardHealth::Offline));
    assert_eq!(store.shard_offline_since(0), Some(now));
    assert_eq!(store.shard_health(1), Some(ShardHealth::Healthy));
    assert_eq!(store.min_writes(), 1);
}

#[test]
fn a_configuration_says_how_to_open_its_shards() {
    let text = "replicas 2\nmin_writes 1\ncatalog bincode:/c.bin\ndirect_io true\n\
                shard raw /dev/a\nshard raw /dev/b readonly direct_io=false\nshard mem\n";
    let conf = parse_cluster_conf(text).unwrap();
    let plan = plan_open(&conf, &NOTHING_SAID).unwrap();
    assert_eq!(plan.settings.replication_factor, 2);
    assert_eq!(plan.settings.min_writes, Some(1));
    assert!(!plan.settings.read_only);
    assert!(matches!(&plan.catalog, Some(CatalogPersistence::Bincode { path }) if path == "/c.bin"));
    assert_eq!(plan.shards.len(), 3);
    assert!(matches!(
        &plan.shards[0],
        ShardOpening::Raw { path, direct_io: true, read_only: false } if path == "/dev/a"
    ));
    assert!(matches!(
        &plan.shards[1],
        ShardOpening::Raw { path, direct_io: false, read_only: true } if path == "/dev/b"
    ));
    assert!(matches!(&plan.shards[2], ShardOpening::Unsupported("mem")));
}

#[test]
fn what_a_client_says_wins_over_the_configuration() {
    let conf = parse_cluster_conf("replicas 2\nmin_writes 1\ncatalog none\nshard raw /a\nshard raw /b\n").unwrap();
    let said = Overrides { min_writes: Some(2), direct_io: Some(true), read_only: Some(true) };
    let plan = plan_open(&conf, &said).unwrap();
    assert_eq!(plan.settings.min_writes, Some(2));
    assert!(plan.settings.read_only);
    assert!(plan.catalog.is_none());
    assert!(matches!(&plan.shards[0], ShardOpening::Raw { direct_io: true, read_only: true, .. }));
    let mut empty = conf;
    empty.shards.clear();
    assert!(plan_open(&empty, &said).is_none());
}

#[test]
fn deletes_need_the_quorum_if_the_configuration_says_so() {
    let text = "replicas 2\ndelete_requires_min_writes\nshard raw /a\nshard raw /b\n";
    let plan = plan_open(&parse_cluster_conf(text).unwrap(), &NOTHING_SAID).unwrap();
    assert!(plan.settings.delete_requires_min_writes);
    let store = open_cluster(plan.shards.len(), &plan.settings).unwrap();
    assert!(store.delete_requires_min_writes());
    let text = "replicas 2\ndelete_requires_min_writes false\nshard raw /a\nshard raw /b\n";
    let plan = plan_open(&parse_cluster_conf(text).unwrap(), &NOTHING_SAID).unwrap();
    assert!(!plan.settings.delete_requires_min_writes);
}

#[test]
fn a_path_alone_is_a_json_catalog() {
    let conf = parse_cluster_conf("catalog bin:/x\nshard raw /a\n").unwrap();
    let plan = plan_open(&conf, &NOTHING_SAID).unwrap();
    assert!(matches!(&plan.catalog, Some(CatalogPersistence::Json { path }) if path == "bin:/x"));
    let conf = parse_cluster_conf("catalog json:/x\nshard raw /a\n").unwrap();
    let plan = plan_open(&conf, &NOTHING_SAID).unwrap();
    assert!(matches!(&plan.catalog, Some(CatalogPersistence::Json { path }) if path == "/x"));
}

#[test]
fn names_are_read_back() {
    for p in [ReadPreference::RoundRobin, ReadPreference::Ordered] {
        assert_eq!(ReadPreference::parse(p.name()), Some(p));
    }
    assert_eq!(ReadPreference::parse("round_robin"), Some(ReadPreference::RoundRobin));
    assert_eq!(ReadPreference::parse("Ordered"), None);
    for r in [
        DetachReason::Manual,
        DetachReason::ProbeFailure,
        DetachReason::DeviceMissing,
        DetachReason::Drain,
    ] {
        assert_eq!(r.name(), format!("{r:?}"));
        assert_eq!(DetachReason::parse(r.name()), Some(r));
    }
    assert_eq!(DetachReason::parse("drain"), None);
}

#[test]
fn catalogs_are_kept_in_the_format_of_a_name() {
    assert!(matches!(
        CatalogPersistence::in_format("json", "/c"),
        Some(CatalogPersistence::Json { path }) if path == "/c"
    ));
    assert!(matches!(
        CatalogPersistence::in_format("bincode", "/c"),
        Some(CatalogPersistence::Bincode { path }) if path == "/c"
    ));
    assert!(CatalogPersistence::in_format("none", "/c").is_none());
}
