//! Sweeps that keep the right number of copies in the right places.

use shardedobjstr::drain::{drain_shard, DrainOutcome, DrainStep};
use shardedobjstr::partitioned::{partitioned_sync, SyncOutcome, SyncStep};
use shardedobjstr::redistribute::{redistribute_sweep, RedistributeStep};
use shardedobjstr::repair::{
    over_replication_trim, plan_repair_replication, re_replication_sweep, repair_replication_sweep,
    PlannedActionKind, SweepOutcome, SweepStep,
};
use shardedobjstr::retire::{retire_shard, RetireStep};
use shardedobjstr::scan::Scanned;
use shardedobjstr::store::{ShardHealth, ShardedObjectStore};
use shardedobjstr::sync::{mirror_sync, MirrorAction, SyncMode};
use shardedobjstr::time::Timestamp;

fn at(secs: i64) -> Timestamp {
    Timestamp { secs, nanos: 0 }
}

fn put(store: &mut ShardedObjectStore, key: &str, shards: &[usize]) {
    store.catalog_mut().put_at(key.to_string(), shards.to_vec(), 10, Some(7), 0, at(100));
}

fn scanned(location: &str, size: u64, secs: i64) -> Scanned {
    Scanned { location: location.to_string(), size, last_modified: at(secs), meta_len: 0 }
}

const COPIED: SweepOutcome = SweepOutcome::Copied { size: 10, meta_len: None };

#[test]
fn a_sweep_copies_and_trims() {
    let mut store = ShardedObjectStore::new(3, 2);
    put(&mut store, "few", &[0]);
    put(&mut store, "many", &[0, 1, 2]);
    let plan = plan_repair_replication(&store, 10);
    assert_eq!(plan.replications.len(), 1);
    assert_eq!(plan.replications[0].key, "few");
    assert_eq!((plan.replications[0].current_count, plan.replications[0].target_rf), (1, 2));
    assert!(matches!(plan.replications[0].action, PlannedActionKind::Replicate { source_shard: 0, .. }));
    assert_eq!(plan.trims.len(), 1);
    assert!(matches!(plan.trims[0].action, PlannedActionKind::Trim { .. }));
    assert_eq!((plan.unrepairable, plan.untrimmable), (0, 0));

    let mut sweep = repair_replication_sweep(&store, 10);
    let step = sweep.next(&store);
    match &step {
        SweepStep::Copy { key, from, to } => {
            assert_eq!((key.as_str(), *from), ("few", 0));
            assert_ne!(*to, 0);
        }
        other => panic!("unexpected {other:?}"),
    }
    sweep.report(&mut store, &step, COPIED, at(200));
    assert_eq!(store.placement("few").unwrap().shards.len(), 2);
    let step = sweep.next(&store);
    assert!(matches!(&step, SweepStep::Trim { key, .. } if key == "many"));
    sweep.report(&mut store, &step, SweepOutcome::Trimmed, at(200));
    assert_eq!(store.placement("many").unwrap().shards.len(), 2);
    assert!(matches!(sweep.next(&store), SweepStep::Done));
    let r = sweep.result(&store);
    assert_eq!((r.re_replicated, r.trimmed, r.under_remaining, r.over_remaining), (1, 1, 0, 0));
}

#[test]
fn what_fails_in_a_sweep_remains() {
    let mut store = ShardedObjectStore::new(2, 2);
    put(&mut store, "few", &[0]);
    let mut sweep = repair_replication_sweep(&store, 10);
    let step = sweep.next(&store);
    sweep.report(&mut store, &step, SweepOutcome::Failed, at(1));
    assert!(matches!(sweep.next(&store), SweepStep::Done));
    let r = sweep.result(&store);
    assert_eq!((r.re_replicated, r.trimmed, r.under_remaining, r.over_remaining), (0, 0, 1, 0));
    assert_eq!(store.placement("few").unwrap().shards, vec![0]);
}

#[test]
fn a_sweep_takes_no_more_than_its_batch() {
    let mut store = ShardedObjectStore::new(3, 2);
    for key in ["a", "b", "c"] {
        put(&mut store, key, &[0]);
    }
    assert_eq!(store.under_replicated_keys(2), vec!["a", "b"]);
    let mut idle = re_replication_sweep(&store, 2);
    assert!(matches!(idle.next(&store), SweepStep::Done));
    store.set_shard_health_at(2, ShardHealth::Offline, at(1));
    let mut sweep = re_replication_sweep(&store, 2);
    let mut copied = 0;
    loop {
        let step = sweep.next(&store);
        if matches!(step, SweepStep::Done) {
            break;
        }
        sweep.report(&mut store, &step, COPIED, at(1));
        copied += 1;
    }
    assert_eq!((copied, sweep.done()), (2, 2));
    assert_eq!(store.under_replicated_keys(10), vec!["c"]);
}

#[test]
fn a_trim_drops_only_excess_copies() {
    let mut store = ShardedObjectStore::new(3, 1);
    put(&mut store, "many", &[0, 1, 2]);
    put(&mut store, "one", &[1]);
    let mut trim = over_replication_trim(&store, 10);
    let step = trim.next(&store);
    assert!(matches!(&step, SweepStep::Trim { key, .. } if key == "many"));
    trim.report(&mut store, &step, SweepOutcome::Trimmed, at(1));
    assert_eq!(store.placement("many").unwrap().shards.len(), 2);
    assert_eq!(store.placement("one").unwrap().shards, vec![1]);
}

#[test]
fn a_plan_lists_every_step_of_a_sweep() {
    let mut store = ShardedObjectStore::new(3, 3);
    put(&mut store, "one", &[0]);
    let plan = plan_repair_replication(&store, 10);
    let copies: Vec<(usize, PlannedActionKind)> =
        plan.replications.iter().map(|a| (a.current_count, a.action)).collect();
    let to = |target_shard| PlannedActionKind::Replicate { source_shard: 0, target_shard };
    assert_eq!(copies, vec![(1, to(2)), (1, to(1))]);
    assert!(plan.trims.is_empty());
    assert_eq!((plan.unrepairable, plan.untrimmable), (0, 0));
    assert_eq!(store.placement("one").unwrap().shards, vec![0]);

    let mut sweep = repair_replication_sweep(&store, 10);
    for planned in &plan.replications {
        let step = sweep.next(&store);
        match (&step, planned.action) {
            (
                SweepStep::Copy { key, from, to },
                PlannedActionKind::Replicate { source_shard, target_shard },
            ) => {
                assert_eq!((key, *from, *to), (&planned.key, source_shard, target_shard));
            }
            other => panic!("unexpected {other:?}"),
        }
        sweep.report(&mut store, &step, COPIED, at(200));
    }
    assert!(matches!(sweep.next(&store), SweepStep::Done));
}

#[test]
fn a_plan_counts_what_a_sweep_leaves_undone() {
    let mut store = ShardedObjectStore::new(3, 3);
    put(&mut store, "one", &[0]);
    store.set_shard_health_at(1, ShardHealth::Offline, at(1));
    let plan = plan_repair_replication(&store, 10);
    assert_eq!(plan.replications.len(), 1);
    assert_eq!((plan.unrepairable, plan.untrimmable), (1, 0));
    assert_eq!(plan_repair_replication(&store, 0).unrepairable, 0);

    let mut store = ShardedObjectStore::new(4, 2);
    put(&mut store, "many", &[0, 1, 2, 3]);
    let plan = plan_repair_replication(&store, 10);
    assert_eq!((plan.replications.len(), plan.trims.len(), plan.untrimmable), (0, 2, 0));
    assert_eq!(plan.trims[0].current_count, 4);
    store.set_shard_health_at(2, ShardHealth::Degraded, at(1));
    store.set_shard_health_at(3, ShardHealth::Degraded, at(1));
    let plan = plan_repair_replication(&store, 10);
    assert_eq!((plan.trims.len(), plan.untrimmable), (0, 1));
}

#[test]
fn a_second_sweep_has_nothing_to_do() {
    let mut store = ShardedObjectStore::new(4, 2);
    put(&mut store, "few", &[0]);
    put(&mut store, "lost", &[3]);
    put(&mut store, "many", &[0, 1, 2]);
    store.set_shard_health_at(3, ShardHealth::Offline, at(1));
    let mut first = repair_replication_sweep(&store, usize::MAX);
    loop {
        let step = first.next(&store);
        let outcome = match &step {
            SweepStep::Copy { .. } => COPIED,
            SweepStep::Trim { .. } => SweepOutcome::Trimmed,
            SweepStep::Done => break,
        };
        first.report(&mut store, &step, outcome, at(200));
    }
    let one = first.result(&store);
    assert_eq!((one.re_replicated, one.trimmed), (1, 1));
    assert_eq!((one.under_remaining, one.over_remaining), (1, 0));
    let mut second = repair_replication_sweep(&store, usize::MAX);
    assert!(matches!(second.next(&store), SweepStep::Done));
    let two = second.result(&store);
    assert_eq!((two.re_replicated, two.trimmed), (0, 0));
    assert_eq!((two.under_remaining, two.over_remaining), (1, 0));
}

#[test]
fn objects_without_a_healthy_copy_cannot_be_repaired() {
    let mut store = ShardedObjectStore::new(3, 2);
    put(&mut store, "lost", &[0]);
    store.set_shard_health_at(0, ShardHealth::Offline, at(1));
    let plan = plan_repair_replication(&store, 10);
    assert_eq!((plan.replications.len(), plan.unrepairable), (0, 1));
    assert_eq!(store.plan_copy("lost"), None);
}

#[test]
fn objects_move_to_emptier_shards() {
    let mut store = ShardedObjectStore::new(2, 1);
    for key in ["a", "b", "c", "d"] {
        put(&mut store, key, &[0]);
    }
    let mut job = redistribute_sweep(&store, 10).unwrap();
    let spread = job.spread();
    assert_eq!((spread.most, spread.least, spread.total, spread.shards), (4, 0, 4, 2));
    let step = job.next(&store, false);
    let key = match &step {
        RedistributeStep::Copy { key, from: 0, to: 1 } => key.clone(),
        other => panic!("unexpected {other:?}"),
    };
    let follow = job.report(&mut store, &step, COPIED, at(2)).unwrap();
    assert!(matches!(&follow, RedistributeStep::Remove { key: k, from: 0, to: 1 } if *k == key));
    assert!(job.report(&mut store, &follow, SweepOutcome::Trimmed, at(3)).is_none());
    assert_eq!(store.placement(&key).unwrap().shards, vec![1]);
    assert!(matches!(job.next(&store, true), RedistributeStep::Done));
    let r = job.result(&store);
    assert_eq!((r.moved, r.skipped, r.errors), (1, 0, 0));
    assert_eq!(r.shard_counts, vec![(0, 3), (1, 1)]);
}

#[test]
fn a_single_shard_is_not_redistributed() {
    assert!(redistribute_sweep(&ShardedObjectStore::new(1, 1), 10).is_none());
}

#[test]
fn a_drain_moves_deletes_and_sweeps() {
    let mut cluster = ShardedObjectStore::new(2, 2);
    put(&mut cluster, "there", &[0, 1]);
    let files = vec!["moved".to_string(), "there".to_string(), "stuck".to_string()];
    let mut job = drain_shard(5, &files);
    let mut deleted = Vec::new();
    let mut moves = Vec::new();
    loop {
        let step = job.next(&mut cluster, at(8));
        let outcome = match &step {
            DrainStep::Move(key) => {
                moves.push(key.clone());
                if key == "stuck" {
                    DrainOutcome::Failed
                } else {
                    DrainOutcome::Succeeded
                }
            }
            DrainStep::Delete(key) => {
                deleted.push(key.clone());
                DrainOutcome::Succeeded
            }
            DrainStep::Sweep(_) => DrainOutcome::Swept(COPIED),
            DrainStep::Done => break,
        };
        job.report(&mut cluster, &step, outcome, at(9));
    }
    assert!(!deleted.contains(&"stuck".to_string()));
    assert!(moves.contains(&"moved".to_string()));
    let r = job.outcome();
    assert_eq!((r.moved, r.skipped, r.errors, r.deleted), (1, 1, 1, 2));
}

#[test]
fn a_drain_leaves_no_entry_on_its_shard() {
    let mut cluster = ShardedObjectStore::new(3, 2);
    put(&mut cluster, "both", &[0, 2]);
    let mut job = drain_shard(2, &vec!["both".to_string()]);
    let mut targets = Vec::new();
    loop {
        let step = job.next(&mut cluster, at(8));
        let outcome = match &step {
            DrainStep::Move(key) => panic!("moved {key}"),
            DrainStep::Delete(_) => DrainOutcome::Succeeded,
            DrainStep::Sweep(SweepStep::Copy { to, .. }) => {
                targets.push(*to);
                DrainOutcome::Swept(COPIED)
            }
            DrainStep::Sweep(_) => DrainOutcome::Swept(SweepOutcome::Trimmed),
            DrainStep::Done => break,
        };
        job.report(&mut cluster, &step, outcome, at(9));
    }
    assert_eq!(targets, vec![1]);
    assert_eq!(cluster.placement("both").unwrap().shards, vec![0, 1]);
    assert_eq!(cluster.shard_health(2), Some(ShardHealth::Offline));
    let r = job.outcome();
    assert_eq!((r.skipped, r.deleted, r.re_replicated, r.under_remaining), (1, 1, 1, 0));
}

#[test]
fn a_mirror_gets_what_it_lacks_and_loses_what_is_gone() {
    let source = vec![scanned("a", 1, 10), scanned("b", 2, 20), scanned("c", 3, 30)];
    let target = vec![scanned("b", 2, 5), scanned("c", 3, 30), scanned("x", 9, 1)];
    let (actions, report) = mirror_sync(&source, &target);
    assert!(actions.iter().any(|a| matches!(a, MirrorAction::Copy(k) if k == "a")));
    assert!(actions.iter().any(|a| matches!(a, MirrorAction::Update(k) if k == "b")));
    assert!(actions.iter().any(|a| matches!(a, MirrorAction::Delete(k) if k == "x")));
    assert_eq!(actions.len(), 3);
    assert_eq!((report.copied, report.updated, report.deleted, report.bytes_copied), (1, 1, 1, 3));
}

#[test]
fn a_shard_comes_back_in_a_way_that_fits_the_cluster() {
    let mut mirror = ShardedObjectStore::new(2, 2);
    mirror.set_shard_health_at(1, ShardHealth::Offline, at(1));
    assert_eq!(mirror.sync_and_reattach(1, at(2)), SyncMode::Mirror);
    assert_eq!(mirror.shard_health(1), Some(ShardHealth::Syncing));
    assert_eq!(mirror.mirror_source(1), Some(0));
    let mut parts = ShardedObjectStore::new(3, 2);
    parts.set_shard_health_at(1, ShardHealth::Offline, at(1));
    assert_eq!(parts.sync_and_reattach(1, at(2)), SyncMode::Partitioned);
    assert!(parts.end_sync(1, true, true, at(3)));
    assert_eq!(parts.shard_health(1), Some(ShardHealth::Syncing));
    assert!(!parts.end_sync(1, false, true, at(3)));
    assert_eq!(parts.shard_health(1), Some(ShardHealth::Offline));
    assert!(!mirror.end_sync(1, true, false, at(3)));
    assert_eq!(mirror.shard_health(1), Some(ShardHealth::Offline));
}

#[test]
fn a_partitioned_sync_replays_deletions() {
    let mut store = ShardedObjectStore::new(3, 2);
    store.set_read_preference(shardedobjstr::store::ReadPreference::Ordered);
    put(&mut store, "kept", &[0, 1]);
    let mut sync = partitioned_sync(&store, 1);
    let mut deleted = Vec::new();
    let mut rounds = 0;
    loop {
        rounds += 1;
        assert!(rounds < 100);
        let outcome = match sync.next(&store) {
            SyncStep::Done => break,
            SyncStep::Copy { .. } => SyncOutcome::Succeeded,
            SyncStep::ListMarkers => SyncOutcome::Markers(vec![("gone".to_string(), at(50))]),
            SyncStep::Head(key) => {
                assert_eq!(key, "gone");
                SyncOutcome::Time(Some(at(10)))
            }
            SyncStep::ListTarget => SyncOutcome::Listing(vec![scanned("kept", 10, 200)]),
            SyncStep::Replace { .. } => SyncOutcome::Succeeded,
            SyncStep::ReadMarker(_) => SyncOutcome::Time(None),
            SyncStep::AskMarker(_) => SyncOutcome::Present(true),
            SyncStep::AskLive(_) => SyncOutcome::Time(Some(at(10))),
            SyncStep::Delete(key) => {
                deleted.push(key);
                SyncOutcome::Succeeded
            }
        };
        sync.report(outcome);
    }
    assert_eq!(deleted, vec!["gone"]);
}

#[test]
fn a_partitioned_sync_keeps_metadata_beside_its_object() {
    let mut store = ShardedObjectStore::new(3, 2);
    store.catalog_mut().put_at("a%25b".to_string(), vec![0, 1], 10, Some(7), 4, at(100));
    store.catalog_mut().put_at("kept".to_string(), vec![0, 1], 10, Some(7), 4, at(100));
    put(&mut store, "plain", &[0, 1]);
    let names = [
        "a%25b",
        "a%2525b.__meta__",
        "kept",
        "kept.__meta__",
        "lost.__meta__",
        "plain",
        "plain.__meta__",
    ];
    let mut sync = partitioned_sync(&store, 1);
    let mut deleted = Vec::new();
    loop {
        let outcome = match sync.next(&store) {
            SyncStep::Done => break,
            SyncStep::ListMarkers => SyncOutcome::Markers(Vec::new()),
            SyncStep::ListTarget => {
                SyncOutcome::Listing(names.iter().map(|n| scanned(n, 10, 200)).collect())
            }
            SyncStep::Delete(key) => {
                deleted.push(key);
                SyncOutcome::Succeeded
            }
            other => panic!("unexpected {other:?}"),
        };
        sync.report(outcome);
    }
    assert_eq!(deleted, vec!["lost.__meta__", "plain.__meta__"]);
}

#[test]
fn a_shard_is_retired_without_losing_objects() {
    let mut store = ShardedObjectStore::new(3, 2);
    put(&mut store, "only", &[0]);
    put(&mut store, "both", &[0, 1]);
    put(&mut store, "else", &[1, 2]);
    put(&mut store, "stuck", &[0]);
    assert!(retire_shard(&store, 3, 10).is_none());
    let mut job = retire_shard(&store, 0, 10).unwrap();
    let mut copies = Vec::new();
    let mut swept = Vec::new();
    let mut rebuilt = 0;
    loop {
        let step = job.next(&mut store, at(9));
        let outcome = match &step {
            RetireStep::Copy { key, from, to } => {
                assert_eq!(*from, 0);
                assert_eq!(store.shard_health(0), Some(ShardHealth::Healthy));
                copies.push((key.clone(), *to));
                if key == "stuck" {
                    SweepOutcome::Failed
                } else {
                    COPIED
                }
            }
            RetireStep::Sweep(SweepStep::Copy { key, from, to }) => {
                assert_eq!(store.shard_health(0), Some(ShardHealth::Offline));
                assert!(*from != 0 && *to != 0);
                swept.push(key.clone());
                COPIED
            }
            RetireStep::Sweep(other) => panic!("unexpected {other:?}"),
            RetireStep::Rebuild => {
                rebuilt += 1;
                COPIED
            }
            RetireStep::Done => break,
        };
        job.report(&mut store, &step, outcome, at(9));
    }
    assert_eq!(copies, vec![("only".to_string(), 2), ("stuck".to_string(), 2)]);
    assert_eq!(swept, vec!["both", "only"]);
    assert_eq!(rebuilt, 1);
    let r = job.result();
    assert_eq!((r.re_replicated, r.trimmed, r.under_remaining, r.over_remaining), (3, 0, 1, 0));
}
