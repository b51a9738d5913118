//! The placement catalog.

use shardedobjstr::catalog::Catalog;
use shardedobjstr::time::Timestamp;

#[test]
fn put_preserves_meta_len() {
    let mut cat = Catalog::new();
    cat.put("obj/a".into(), vec![0, 1], 1024, Some(0xDEAD), 42);

    let entry = cat.get("obj/a").unwrap();
    assert_eq!(entry.meta_len, 42);
    assert_eq!(entry.size, 1024);
    assert_eq!(entry.crc32c, Some(0xDEAD));
}

#[test]
fn meta_len_zero_when_not_specified() {
    let mut cat = Catalog::new();
    cat.put("obj/b".into(), vec![0], 512, None, 0);

    let entry = cat.get("obj/b").unwrap();
    assert_eq!(entry.meta_len, 0);
}

#[test]
fn add_replica_defaults_meta_len_zero() {
    let mut cat = Catalog::new();
    cat.add_replica("obj/r", 0, 512, 0);

    let entry = cat.get("obj/r").unwrap();
    assert_eq!(entry.meta_len, 0, "add_replica should default meta_len to 0");
}

#[test]
fn try_insert_defaults_meta_len_zero() {
    let mut cat = Catalog::new();
    cat.try_insert("obj/t".into(), vec![0, 1], 1024);

    let entry = cat.get("obj/t").unwrap();
    assert_eq!(entry.meta_len, 0, "try_insert should default meta_len to 0");
}

fn at(secs: i64) -> Timestamp {
    Timestamp { secs, nanos: 0 }
}

#[test]
fn a_replica_is_added_once() {
    let mut cat = Catalog::new();
    cat.put_at("k".to_string(), vec![0], 10, Some(1), 3, at(1));
    cat.add_replica_at("k", 2, 99, 0, at(2));
    cat.add_replica_at("k", 2, 99, 0, at(3));
    let e = cat.get("k").unwrap();
    assert_eq!(e.shards, vec![0, 2]);
    assert_eq!((e.size, e.crc32c, e.updated, e.meta_len), (10, Some(1), at(1), 3));
    cat.add_replica_at("k", 2, 99, 8, at(4));
    assert_eq!(cat.get("k").unwrap().meta_len, 8);
}

#[test]
fn taking_out_a_shard_undoes_adding_it() {
    let mut cat = Catalog::new();
    cat.put_at("k".to_string(), vec![0], 10, Some(1), 3, at(1));
    cat.add_replica_at("k", 2, 99, 0, at(2));
    cat.remove_shard("k", 2);
    assert_eq!(cat.get("k").unwrap().shards, vec![0]);
    cat.remove_shard("k", 0);
    assert!(!cat.contains("k"));
    cat.clear_dirty();
    cat.remove_shard("k", 0);
    assert!(!cat.is_dirty());
}

#[test]
fn purging_a_shard_drops_what_was_only_there() {
    let mut cat = Catalog::new();
    cat.put_at("a".to_string(), vec![0], 1, None, 0, at(1));
    cat.put_at("b".to_string(), vec![0, 1], 1, None, 0, at(1));
    cat.put_at("c".to_string(), vec![1], 1, None, 0, at(1));
    assert_eq!(cat.entries_for_shard(0).len(), 2);
    assert_eq!(cat.remove_all_for_shard(0), 2);
    assert_eq!(cat.len(), 2);
    assert_eq!(cat.get("b").unwrap().shards, vec![1]);
    assert_eq!(cat.get("c").unwrap().shards, vec![1]);
    assert_eq!(cat.remove_all_for_shard(0), 0);
}

#[test]
fn an_entry_is_inserted_only_if_there_is_none() {
    let mut cat = Catalog::new();
    assert!(cat.try_insert_at("k".to_string(), vec![1], 4, at(1)));
    assert!(!cat.try_insert_at("k".to_string(), vec![2], 5, at(2)));
    assert_eq!(cat.get("k").unwrap().shards, vec![1]);
    assert!(cat.remove("k").is_some());
    assert!(cat.remove("k").is_none());
}

#[test]
fn keys_are_listed_in_order_and_by_prefix() {
    let mut cat = Catalog::new();
    for key in ["b/2", "a", "b/1", "bb"] {
        cat.put_at(key.to_string(), vec![0], 1, None, 0, at(7));
    }
    assert_eq!(cat.keys(None), vec!["a", "b/1", "b/2", "bb"]);
    assert_eq!(cat.keys(Some("b/")), vec!["b/1", "b/2"]);
    let listed = cat.list(Some("b/1"));
    assert_eq!(listed.len(), 1);
    assert_eq!((listed[0].location.as_str(), listed[0].size, listed[0].last_modified), ("b/1", 1, at(7)));
    let entries = cat.all_entries();
    assert_eq!(entries[0].0, "a");
}

#[test]
fn locations_are_normalized_paths() {
    let mut cat = Catalog::new();
    cat.put_at("/x//y z%".to_string(), vec![0], 1, None, 0, at(7));
    assert_eq!(cat.list(None)[0].location, "x/y z%25");
}

#[test]
fn keys_are_listed_as_paths() {
    let cases = [
        ("//", ""),
        ("a/../b/", "a/%2E%2E/b"),
        ("./.../..a", "%2E/.../..a"),
        ("\u{1f}\u{20}\u{7f}", "%1F %7F"),
        ("x/\u{e9}", "x/%C3%A9"),
        ("\\|\"`^~{}[]<>%#*?", "%5C%7C%22%60%5E%7E%7B%7D%5B%5D%3C%3E%25%23%2A%3F"),
        (" !$&'()+,-.09:;=@AZ_az", " !$&'()+,-.09:;=@AZ_az"),
    ];
    for (key, path) in cases {
        let mut cat = Catalog::new();
        cat.put_at(key.to_string(), vec![0], 1, None, 0, at(7));
        assert_eq!(cat.list(None)[0].location, path);
    }
}

#[test]
fn a_catalog_of_all_entries_of_another_is_the_same() {
    let mut cat = Catalog::new();
    cat.put_at("b".to_string(), vec![2, 0], 10, Some(7), 4, at(7));
    cat.put_at("a/c".to_string(), vec![1], 0, None, 0, at(8));
    assert!(cat.is_dirty());
    let all = cat.all_entries();
    let loaded = Catalog::from_pairs(&all);
    assert!(!loaded.is_dirty());
    assert_eq!(loaded.len(), 2);
    let b = loaded.get("b").unwrap();
    assert_eq!((b.shards, b.size, b.crc32c, b.updated, b.meta_len), (vec![2, 0], 10, Some(7), at(7), 4));
    let c = loaded.get("a/c").unwrap();
    assert_eq!((c.shards, c.size, c.crc32c, c.updated, c.meta_len), (vec![1], 0, None, at(8), 0));
    let mut twice = all;
    twice.extend(loaded.all_entries());
    twice[0].1.size = 99;
    assert_eq!(Catalog::from_pairs(&twice).get("a/c").unwrap().size, 0);
    assert!(Catalog::from_pairs(&Vec::new()).is_empty());
}
