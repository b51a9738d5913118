//! Consistent hashing and replication.

use shardedobjstr::replication::{jump_consistent_hash, ReplicationPolicy};

#[test]
fn replication_factor_clamped() {
    let policy = ReplicationPolicy::new(5, 3);
    assert_eq!(policy.factor(), 3); // clamped to shard_count
}

#[test]
fn jump_hash_range_and_determinism() {
    // Every result must be in [0, num_buckets).
    for buckets in 1u32..=64 {
        for seed in 0u64..200 {
            let b = jump_consistent_hash(seed, buckets);
            assert!(b < buckets, "bucket {b} >= {buckets} for seed {seed}");
        }
    }
    // Same inputs always produce the same output.
    assert_eq!(
        jump_consistent_hash(42, 10),
        jump_consistent_hash(42, 10),
    );
}

#[test]
fn jump_hash_stability_on_grow() {
    // When going from N to N+1 buckets, at most ~1/(N+1) keys should
    // change bucket.  With 10000 keys going from 8 to 9 shards the
    // expected move rate is ~11%.  We allow up to 20% to account for
    // statistical noise.
    let n_old = 8u32;
    let n_new = 9u32;
    let samples = 10_000u64;
    let mut moved = 0u64;
    for key in 0..samples {
        if jump_consistent_hash(key, n_old) != jump_consistent_hash(key, n_new) {
            moved += 1;
        }
    }
    let move_pct = (moved as f64 / samples as f64) * 100.0;
    assert!(
        move_pct < 20.0,
        "too many keys moved: {moved}/{samples} ({move_pct:.1}%)"
    );
}
