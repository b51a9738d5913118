//! Hashes, checksums and digests.

use shardedobjstr::cross_verify::{digest_of_tag, BodyRead};
use shardedobjstr::digest::{checksum_string, RunningCrc};
use shardedobjstr::persistence::payload_checksum;
use shardedobjstr::replication::{jump_consistent_hash, ReplicationPolicy};
use shardedobjstr::store::ShardedObjectStore;
use shardedobjstr::time::Timestamp;

/// The hash in floating point.
fn jump_in_floats(mut key: u64, buckets: u32) -> u32 {
    let mut b: i64 = -1;
    let mut j: i64 = 0;
    while j < buckets as i64 {
        b = j;
        key = key.wrapping_mul(2862933555777941757).wrapping_add(1);
        j = ((b.wrapping_add(1) as f64) * ((1i64 << 31) as f64 / ((key >> 33).wrapping_add(1) as f64)))
            as i64;
    }
    b as u32
}

#[test]
fn the_integer_hash_is_that_in_floats() {
    let mut seed: u64 = 0x9E3779B97F4A7C15;
    for i in 0..20_000u64 {
        seed = seed.wrapping_mul(6364136223846793005).wrapping_add(1442695040888963407);
        for buckets in [1, 2, 3, 7, 64, 1000, 65_537, 1 << 20, u32::MAX] {
            if buckets > 1000 && i % 40 != 0 {
                continue;
            }
            assert_eq!(jump_consistent_hash(seed, buckets), jump_in_floats(seed, buckets));
            assert_eq!(jump_consistent_hash(i, buckets), jump_in_floats(i, buckets));
        }
    }
}

#[test]
fn a_hash_moves_only_to_the_new_bucket() {
    for key in 0..500u64 {
        for n in 1..40u32 {
            let a = jump_consistent_hash(key, n);
            let b = jump_consistent_hash(key, n + 1);
            assert!(b == a || b == n);
        }
    }
}

#[test]
fn a_policy_keeps_at_least_one_copy() {
    assert_eq!(ReplicationPolicy::new(2, 3).factor(), 2);
    assert_eq!(ReplicationPolicy::new(0, 3).factor(), 1);
    assert_eq!(ReplicationPolicy::new(3, 3).factor(), 3);
}

#[test]
fn checksums_are_those_of_castagnoli() {
    assert_eq!(payload_checksum(b"Hello world!"), 0x7B_98_E7_51);
    assert_eq!(payload_checksum(b""), 0);
    assert_eq!(payload_checksum(b"123456789"), 0xE306_9283);
}

#[test]
fn a_running_checksum_is_that_of_the_whole() {
    let mut crc = RunningCrc::new();
    assert_eq!(crc.value(), 0);
    crc.update(b"1234");
    crc.update(b"");
    crc.update(b"56789");
    assert_eq!(crc.value(), payload_checksum(b"123456789"));
}

#[test]
fn checksums_are_written_with_eight_digits() {
    assert_eq!(checksum_string(0xDEAD, false), "0x0000dead");
    assert_eq!(checksum_string(0xDEAD, true), "0x0000DEAD");
    assert_eq!(checksum_string(0, true), "0x00000000");
    assert_eq!(checksum_string(u32::MAX, false), "0xffffffff");
}

#[test]
fn a_body_has_the_md5_of_its_bytes() {
    let time = Timestamp { secs: 7, nanos: 0 };
    let body = BodyRead::Read { data: b"abc".to_vec(), last_modified: time };
    let d = ShardedObjectStore::get_body_md5(3, &body).unwrap();
    assert_eq!(d.md5_hex, "900150983cd24fb0d6963f7d28e17f72");
    assert_eq!((d.shard_id, d.size, d.last_modified), (3, 3, time));
}

#[test]
fn only_a_plain_md5_is_taken_from_a_tag() {
    let hex = "900150983cd24fb0d6963f7d28e17f72";
    assert_eq!(digest_of_tag(hex), Some(hex.to_string()));
    assert_eq!(digest_of_tag(&format!("\"{hex}\"")), Some(hex.to_string()));
    assert_eq!(digest_of_tag(&format!("\"{hex}-2\"")), None);
    assert_eq!(digest_of_tag("abc"), None);
}
