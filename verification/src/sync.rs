//! Bringing a shard up to date after it was away.
//!
//! In a mirror, where every shard holds every object, the shard is made equal to a
//! healthy one. Otherwise the objects that have too few copies are copied to it, and
//! what was deleted or replaced while it was away is removed from it.

use vstd::prelude::*;
use vstd::string::*;
use crate::ids::ShardId;
use crate::placement;
use crate::repair;
use crate::scan;
use crate::scan::Scanned;
use crate::store;
use crate::store::{ShardHealth, ShardedObjectStore};
use crate::tally;
use crate::tally::{count_up, sum_up};
use crate::text::str_eq;
use crate::time::Timestamp;

verus! {

// -- Choosing how to sync ---------------------------------------------------

/// How a shard is brought up to date.
#[derive(Debug, Clone, Copy, PartialEq, Eq, Structural)]
pub enum SyncMode {
    Mirror,
    Partitioned,
}

/// How shards of a cluster are brought up to date: as mirrors if each holds every
/// object.
pub open spec fn sync_mode(c: store::ClusterState) -> SyncMode {
    if c.rf == c.shards.len() {
        SyncMode::Mirror
    } else {
        SyncMode::Partitioned
    }
}

impl ShardedObjectStore {
    /// Begins to bring a shard up to date: it is syncing from here on.
    pub fn sync_and_reattach(&mut self, shard_id: ShardId, now: Timestamp) -> (mode: SyncMode)
        ensures
            mode == sync_mode(old(self)@),
            final(self)@ == store::health_set(old(self)@, shard_id, ShardHealth::Syncing, now),
            store::valid(old(self)@) ==> store::valid(final(self)@),
    {
        self.set_shard_health_at(shard_id, ShardHealth::Syncing, now);
        if self.replication_factor() == self.shard_count() {
            SyncMode::Mirror
        } else {
            SyncMode::Partitioned
        }
    }

    /// Ends a sync. Whether the shard is to be attached again, with what it holds
    /// trusted: not if the sync failed or if its store is not at hand, in which case it
    /// is offline.
    pub fn end_sync(&mut self, shard_id: ShardId, synced: bool, at_hand: bool, now: Timestamp) -> (attach:
        bool)
        ensures
            attach == (synced && at_hand),
            final(self)@ == (if attach {
                old(self)@
            } else {
                store::health_set(old(self)@, shard_id, ShardHealth::Offline, now)
            }),
            store::valid(old(self)@) ==> store::valid(final(self)@),
    {
        let attach = synced && at_hand;
        if !attach {
            self.set_shard_health_at(shard_id, ShardHealth::Offline, now);
        }
        attach
    }

    /// The shard to copy from in a mirror: the first healthy one other than the one to
    /// bring up to date.
    pub fn mirror_source(&self, target_shard: ShardId) -> (r: Option<ShardId>)
        ensures
            r == repair::healthy_source(
                self@.shards,
                placement::all_ids(self@.shards.len()),
                Some(target_shard),
            ),
    {
        let all = self.number_shards();
        self.healthy_source(all.as_slice(), Some(target_shard))
    }
}

// -- Mirrors ----------------------------------------------------------------

/// What is done about an object in a mirror.
#[derive(Debug)]
pub enum MirrorAction {
    /// Copy it: it is missing.
    Copy(String),
    /// Copy it again: it is older, or of another size.
    Update(String),
    /// Delete it: it is gone from the source.
    Delete(String),
}

/// What is done about an object in a mirror.
pub enum MirrorSpec {
    Copy(Seq<char>),
    Update(Seq<char>),
    Delete(Seq<char>),
}

impl View for MirrorAction {
    type V = MirrorSpec;

    open spec fn view(&self) -> MirrorSpec {
        match *self {
            MirrorAction::Copy(k) => MirrorSpec::Copy(k@),
            MirrorAction::Update(k) => MirrorSpec::Update(k@),
            MirrorAction::Delete(k) => MirrorSpec::Delete(k@),
        }
    }
}

/// What is done about objects in a mirror.
pub open spec fn mirror_views(v: Seq<MirrorAction>) -> Seq<MirrorSpec> {
    Seq::new(v.len(), |i: int| v[i]@)
}

/// What a sync of a mirror has done.
#[derive(Debug, Clone, Copy, PartialEq, Eq, Structural)]
pub struct MirrorSyncReport {
    pub copied: usize,
    pub deleted: usize,
    pub bytes_copied: u64,
    /// Objects that were on both shards, but newer or of another size on the source.
    pub updated: usize,
}

/// The object of a key among those that a shard lists.
pub open spec fn object_of(objects: Seq<scan::ScanSpec>, key: Seq<char>) -> Option<scan::ScanSpec>
    decreases objects.len(),
{
    if objects.len() == 0 {
        None
    } else if objects.last().location == key {
        Some(objects.last())
    } else {
        object_of(objects.drop_last(), key)
    }
}

/// What is done about an object of the source.
pub open spec fn mirror_of(o: scan::ScanSpec, target: Seq<scan::ScanSpec>) -> Option<MirrorSpec> {
    match object_of(target, o.location) {
        None => Some(MirrorSpec::Copy(o.location)),
        Some(t) => if o.last_modified.later_than(t.last_modified) || o.size != t.size {
            Some(MirrorSpec::Update(o.location))
        } else {
            None
        },
    }
}

/// What is done about the objects of the source.
pub open spec fn mirror_copies(source: Seq<scan::ScanSpec>, target: Seq<scan::ScanSpec>) -> Seq<
    MirrorSpec,
>
    decreases source.len(),
{
    if source.len() == 0 {
        Seq::empty()
    } else {
        let head = mirror_copies(source.drop_last(), target);
        match mirror_of(source.last(), target) {
            Some(a) => head.push(a),
            None => head,
        }
    }
}

/// What is done about the objects of the target that the source does not have.
pub open spec fn mirror_deletes(source: Seq<scan::ScanSpec>, target: Seq<scan::ScanSpec>) -> Seq<
    MirrorSpec,
>
    decreases target.len(),
{
    if target.len() == 0 {
        Seq::empty()
    } else {
        let head = mirror_deletes(source, target.drop_last());
        if object_of(source, target.last().location) is None {
            head.push(MirrorSpec::Delete(target.last().location))
        } else {
            head
        }
    }
}

/// What a sync of a mirror does.
pub open spec fn mirror_plan(source: Seq<scan::ScanSpec>, target: Seq<scan::ScanSpec>) -> Seq<
    MirrorSpec,
> {
    mirror_copies(source, target) + mirror_deletes(source, target)
}

/// What copying the objects of the source amounts to.
pub open spec fn copies_report(source: Seq<scan::ScanSpec>, target: Seq<scan::ScanSpec>) -> MirrorSyncReport
    decreases source.len(),
{
    if source.len() == 0 {
        MirrorSyncReport { copied: 0, deleted: 0, bytes_copied: 0, updated: 0 }
    } else {
        let head = copies_report(source.drop_last(), target);
        let o = source.last();
        match mirror_of(o, target) {
            None => head,
            Some(MirrorSpec::Copy(_)) => MirrorSyncReport {
                copied: tally::up(head.copied),
                bytes_copied: tally::sum(head.bytes_copied, o.size),
                ..head
            },
            Some(_) => MirrorSyncReport {
                updated: tally::up(head.updated),
                bytes_copied: tally::sum(head.bytes_copied, o.size),
                ..head
            },
        }
    }
}

/// What a sync of a mirror amounts to.
pub open spec fn mirror_report(source: Seq<scan::ScanSpec>, target: Seq<scan::ScanSpec>) -> MirrorSyncReport {
    MirrorSyncReport {
        deleted: mirror_deletes(source, target).len() as usize,
        ..copies_report(source, target)
    }
}

/// Finds the object of a key.
fn find_object<'a>(objects: &'a Vec<Scanned>, key: &str) -> (r: Option<&'a Scanned>)
    ensures
        (match r {
            Some(o) => Some(o@),
            None => None,
        }) == object_of(scan::scan_views(objects@), key@),
{
    let ghost all = scan::scan_views(objects@);
    let mut i: usize = objects.len();
    assert(all.take(i as int) =~= all);
    while i > 0
        invariant
            i <= objects.len(),
            all == scan::scan_views(objects@),
            object_of(all.take(i as int), key@) == object_of(all, key@),
        decreases i,
    {
        assert(all.take(i as int).last() == objects@[i - 1]@);
        assert(all.take(i as int).drop_last() =~= all.take(i - 1));
        if str_eq(objects[i - 1].location.as_str(), key) {
            return Some(&objects[i - 1]);
        }
        i = i - 1;
    }
    None
}

fn push_action(v: &mut Vec<MirrorAction>, a: MirrorAction)
    ensures
        mirror_views(final(v)@) == mirror_views(old(v)@).push(a@),
{
    v.push(a);
    assert(mirror_views(v@) =~= mirror_views(old(v)@).push(a@));
}

/// What to do to make a shard equal to another, given what both list, and what that
/// amounts to if all of it succeeds.
pub fn mirror_sync(source: &Vec<Scanned>, target: &Vec<Scanned>) -> (r: (
    Vec<MirrorAction>,
    MirrorSyncReport,
))
    ensures
        mirror_views(r.0@) == mirror_plan(scan::scan_views(source@), scan::scan_views(target@)),
        r.1 == mirror_report(scan::scan_views(source@), scan::scan_views(target@)),
{
    let ghost src = scan::scan_views(source@);
    let ghost dst = scan::scan_views(target@);
    let mut actions: Vec<MirrorAction> = Vec::new();
    let mut report = MirrorSyncReport { copied: 0, deleted: 0, bytes_copied: 0, updated: 0 };
    let mut i: usize = 0;
    assert(mirror_views(actions@) =~= mirror_copies(src.take(0), dst));
    while i < source.len()
        invariant
            i <= source.len(),
            src == scan::scan_views(source@),
            dst == scan::scan_views(target@),
            mirror_views(actions@) == mirror_copies(src.take(i as int), dst),
            report == copies_report(src.take(i as int), dst),
            report.deleted == 0,
        decreases source.len() - i,
    {
        proof {
            assert(src.take(i + 1).drop_last() =~= src.take(i as int));
            assert(src.take(i + 1).last() == source@[i as int]@);
        }
        let o = &source[i];
        match find_object(target, o.location.as_str()) {
            None => {
                push_action(&mut actions, MirrorAction::Copy(o.location.clone()));
                report.copied = count_up(report.copied);
                report.bytes_copied = sum_up(report.bytes_copied, o.size);
            },
            Some(t) => {
                if o.last_modified.is_after(&t.last_modified) || o.size != t.size {
                    push_action(&mut actions, MirrorAction::Update(o.location.clone()));
                    report.updated = count_up(report.updated);
                    report.bytes_copied = sum_up(report.bytes_copied, o.size);
                }
            },
        }
        i = i + 1;
    }
    assert(src.take(i as int) =~= src);
    let mut deletes: Vec<MirrorAction> = Vec::new();
    let mut k: usize = 0;
    assert(mirror_views(deletes@) =~= mirror_deletes(src, dst.take(0)));
    while k < target.len()
        invariant
            k <= target.len(),
            src == scan::scan_views(source@),
            dst == scan::scan_views(target@),
            mirror_views(deletes@) == mirror_deletes(src, dst.take(k as int)),
        decreases target.len() - k,
    {
        proof {
            assert(dst.take(k + 1).drop_last() =~= dst.take(k as int));
            assert(dst.take(k + 1).last() == target@[k as int]@);
        }
        if find_object(source, target[k].location.as_str()).is_none() {
            push_action(&mut deletes, MirrorAction::Delete(target[k].location.clone()));
        }
        k = k + 1;
    }
    assert(dst.take(k as int) =~= dst);
    assert(mirror_views(deletes@).len() == deletes@.len());
    report.deleted = deletes.len();
    let ghost copied = actions@;
    let ghost deleted = deletes@;
    actions.append(&mut deletes);
    assert(mirror_views(actions@) =~= mirror_views(copied) + mirror_views(deleted));
    (actions, report)
}

/// The keys that a shard lists.
pub open spec fn keys_listed(objects: Seq<scan::ScanSpec>) -> Set<Seq<char>> {
    Set::new(|k: Seq<char>| object_of(objects, k) is Some)
}

/// The keys on a shard after actions were carried out.
pub open spec fn keys_after(keys: Set<Seq<char>>, actions: Seq<MirrorSpec>) -> Set<Seq<char>>
    decreases actions.len(),
{
    if actions.len() == 0 {
        keys
    } else {
        let head = keys_after(keys, actions.drop_last());
        match actions.last() {
            MirrorSpec::Copy(k) => head.insert(k),
            MirrorSpec::Update(k) => head.insert(k),
            MirrorSpec::Delete(k) => head.remove(k),
        }
    }
}

proof fn lemma_keys_after_sum(keys: Set<Seq<char>>, a: Seq<MirrorSpec>, b: Seq<MirrorSpec>)
    ensures
        keys_after(keys, a + b) == keys_after(keys_after(keys, a), b),
    decreases b.len(),
{
    if b.len() == 0 {
        assert(a + b =~= a);
    } else {
        lemma_keys_after_sum(keys, a, b.drop_last());
        assert((a + b).drop_last() =~= a + b.drop_last());
        assert((a + b).last() == b.last());
    }
}

proof fn lemma_copies_keys(
    keys: Set<Seq<char>>,
    source: Seq<scan::ScanSpec>,
    target: Seq<scan::ScanSpec>,
)
    requires
        keys == keys_listed(target),
    ensures
        keys_after(keys, mirror_copies(source, target)) == keys.union(keys_listed(source)),
    decreases source.len(),
{
    let after = keys_after(keys, mirror_copies(source, target));
    if source.len() == 0 {
        assert(after =~= keys.union(keys_listed(source)));
    } else {
        let head = source.drop_last();
        let o = source.last();
        lemma_copies_keys(keys, head, target);
        let h = mirror_copies(head, target);
        match mirror_of(o, target) {
            Some(a) => {
                assert(h.push(a).drop_last() =~= h);
                assert(after =~= keys.union(keys_listed(head)).insert(o.location));
            },
            None => {
                assert(keys.contains(o.location));
            },
        }
        assert forall|k: Seq<char>| #[trigger] keys_listed(source).contains(k) <==> (keys_listed(
            head,
        ).contains(k) || k == o.location) by {}
        assert(after =~= keys.union(keys_listed(source)));
    }
}

proof fn lemma_deletes_keys(
    keys: Set<Seq<char>>,
    source: Seq<scan::ScanSpec>,
    target: Seq<scan::ScanSpec>,
)
    ensures
        keys_after(keys, mirror_deletes(source, target)) == keys.difference(
            keys_listed(target).difference(keys_listed(source)),
        ),
    decreases target.len(),
{
    let after = keys_after(keys, mirror_deletes(source, target));
    let want = keys.difference(keys_listed(target).difference(keys_listed(source)));
    if target.len() == 0 {
        assert(after =~= want);
    } else {
        let head = target.drop_last();
        let o = target.last();
        lemma_deletes_keys(keys, source, head);
        let h = mirror_deletes(source, head);
        assert(h.push(MirrorSpec::Delete(o.location)).drop_last() =~= h);
        assert forall|k: Seq<char>| #[trigger] keys_listed(target).contains(k) <==> (keys_listed(
            head,
        ).contains(k) || k == o.location) by {}
        assert(after =~= want);
    }
}

/// A sync of a mirror leaves the shard with exactly the objects of the source.
pub proof fn a_mirror_ends_with_the_objects_of_the_source(
    source: Seq<scan::ScanSpec>,
    target: Seq<scan::ScanSpec>,
)
    ensures
        keys_after(keys_listed(target), mirror_plan(source, target)) == keys_listed(source),
{
    let keys = keys_listed(target);
    lemma_keys_after_sum(keys, mirror_copies(source, target), mirror_deletes(source, target));
    lemma_copies_keys(keys, source, target);
    lemma_deletes_keys(keys.union(keys_listed(source)), source, target);
    assert(keys_after(keys, mirror_plan(source, target)) =~= keys_listed(source));
}

/// An object that a sync of a mirror leaves as it is has the size of that of the source
/// and is no older.
pub proof fn what_a_mirror_leaves_is_up_to_date(
    o: scan::ScanSpec,
    target: Seq<scan::ScanSpec>,
)
    ensures
        mirror_of(o, target) is None <==> object_of(target, o.location) is Some && object_of(
            target,
            o.location,
        )->0.size == o.size && !o.last_modified.later_than(
            object_of(target, o.location)->0.last_modified,
        ),
{
}

/// A shard is brought up to date as a mirror exactly if every shard holds every object.
pub proof fn a_mirror_is_a_cluster_that_keeps_a_copy_on_every_shard(c: store::ClusterState)
    ensures
        sync_mode(c) == SyncMode::Mirror <==> c.rf == c.shards.len(),
{
}

proof fn lemma_object_of(objects: Seq<scan::ScanSpec>, key: Seq<char>)
    ensures
        object_of(objects, key) is Some <==> exists|i: int|
            0 <= i < objects.len() && (#[trigger] objects[i]).location == key,
        object_of(objects, key) matches Some(o) ==> objects.contains(o) && o.location == key,
    decreases objects.len(),
{
    if objects.len() > 0 {
        let head = objects.drop_last();
        lemma_object_of(head, key);
        assert(objects[objects.len() - 1] == objects.last());
        if exists|i: int| 0 <= i < head.len() && (#[trigger] head[i]).location == key {
            let i = choose|i: int| 0 <= i < head.len() && (#[trigger] head[i]).location == key;
            assert(objects[i].location == key);
        }
        if exists|i: int| 0 <= i < objects.len() && (#[trigger] objects[i]).location == key {
            let i = choose|i: int|
                0 <= i < objects.len() && (#[trigger] objects[i]).location == key;
            if i < head.len() {
                assert(head[i].location == key);
            }
        }
        if let Some(o) = object_of(objects, key) {
            if objects.last().location != key {
                let i = head.index_of(o);
                assert(objects[i] == o);
            }
        }
    }
}

proof fn lemma_copies_hold(source: Seq<scan::ScanSpec>, target: Seq<scan::ScanSpec>, a: MirrorSpec)
    ensures
        mirror_copies(source, target).contains(a) <==> exists|i: int|
            0 <= i < source.len() && mirror_of(#[trigger] source[i], target) == Some(a),
    decreases source.len(),
{
    if source.len() > 0 {
        let head = source.drop_last();
        let before = mirror_copies(head, target);
        let after = mirror_copies(source, target);
        lemma_copies_hold(head, target, a);
        assert(source[source.len() - 1] == source.last());
        if let Some(b) = mirror_of(source.last(), target) {
            assert(after[before.len() as int] == b);
            if before.contains(a) {
                assert(after[before.index_of(a)] == a);
            }
            if after.contains(a) && a != b {
                assert(before[after.index_of(a)] == a);
            }
        }
        if exists|i: int| 0 <= i < head.len() && mirror_of(#[trigger] head[i], target) == Some(a) {
            let i = choose|i: int|
                0 <= i < head.len() && mirror_of(#[trigger] head[i], target) == Some(a);
            assert(source[i] == head[i]);
        }
        if exists|i: int|
            0 <= i < source.len() && mirror_of(#[trigger] source[i], target) == Some(a) {
            let i = choose|i: int|
                0 <= i < source.len() && mirror_of(#[trigger] source[i], target) == Some(a);
            if i < head.len() {
                assert(head[i] == source[i]);
            }
        }
    }
}

proof fn lemma_deletes_hold(
    source: Seq<scan::ScanSpec>,
    target: Seq<scan::ScanSpec>,
    a: MirrorSpec,
)
    ensures
        mirror_deletes(source, target).contains(a) <==> exists|i: int|
            0 <= i < target.len() && a == MirrorSpec::Delete((#[trigger] target[i]).location)
                && object_of(source, target[i].location) is None,
    decreases target.len(),
{
    if target.len() > 0 {
        let head = target.drop_last();
        let before = mirror_deletes(source, head);
        let after = mirror_deletes(source, target);
        let b = MirrorSpec::Delete(target.last().location);
        lemma_deletes_hold(source, head, a);
        assert(target[target.len() - 1] == target.last());
        if object_of(source, target.last().location) is None {
            assert(after[before.len() as int] == b);
            if before.contains(a) {
                assert(after[before.index_of(a)] == a);
            }
            if after.contains(a) && a != b {
                assert(before[after.index_of(a)] == a);
            }
        }
        if exists|i: int|
            0 <= i < head.len() && a == MirrorSpec::Delete((#[trigger] head[i]).location)
                && object_of(source, head[i].location) is None {
            let i = choose|i: int|
                0 <= i < head.len() && a == MirrorSpec::Delete((#[trigger] head[i]).location)
                    && object_of(source, head[i].location) is None;
            assert(target[i] == head[i]);
        }
        if exists|i: int|
            0 <= i < target.len() && a == MirrorSpec::Delete((#[trigger] target[i]).location)
                && object_of(source, target[i].location) is None {
            let i = choose|i: int|
                0 <= i < target.len() && a == MirrorSpec::Delete((#[trigger] target[i]).location)
                    && object_of(source, target[i].location) is None;
            if i < head.len() {
                assert(head[i] == target[i]);
            }
        }
    }
}

/// Whether a shard lists a key.
pub open spec fn lists(objects: Seq<scan::ScanSpec>, key: Seq<char>) -> bool {
    exists|i: int| 0 <= i < objects.len() && (#[trigger] objects[i]).location == key
}

/// Whether a shard lists each key once.
pub open spec fn lists_once(objects: Seq<scan::ScanSpec>) -> bool {
    forall|i: int, j: int|
        0 <= i < j < objects.len() ==> (#[trigger] objects[i]).location != (
        #[trigger] objects[j]).location
}

/// A sync of a mirror copies exactly what is missing, deletes exactly what is gone from
/// the source, and copies again exactly what is newer there or of another size.
pub proof fn a_mirror_does_what_the_difference_asks_for(
    source: Seq<scan::ScanSpec>,
    target: Seq<scan::ScanSpec>,
    key: Seq<char>,
)
    requires
        lists_once(source),
        lists_once(target),
    ensures
        ({
            let plan = mirror_plan(source, target);
            &&& plan.contains(MirrorSpec::Copy(key)) <==> lists(source, key) && !lists(target, key)
            &&& plan.contains(MirrorSpec::Delete(key)) <==> lists(target, key) && !lists(
                source,
                key,
            )
            &&& forall|i: int, j: int|
                0 <= i < source.len() && 0 <= j < target.len() && (#[trigger] source[i]).location
                    == key && (#[trigger] target[j]).location == key ==> (plan.contains(
                    MirrorSpec::Update(key),
                ) <==> source[i].last_modified.later_than(target[j].last_modified)
                    || source[i].size != target[j].size)
        }),
{
    let a = mirror_copies(source, target);
    let b = mirror_deletes(source, target);
    let plan = mirror_plan(source, target);
    assert forall|x: MirrorSpec| #[trigger] plan.contains(x) <==> a.contains(x) || b.contains(x) by {
        if a.contains(x) {
            assert(plan[a.index_of(x)] == x);
        }
        if b.contains(x) {
            assert(plan[a.len() + b.index_of(x)] == x);
        }
        if plan.contains(x) {
            let i = plan.index_of(x);
            if i < a.len() {
                assert(a[i] == x);
            } else {
                assert(b[i - a.len()] == x);
            }
        }
    }
    lemma_object_of(source, key);
    lemma_object_of(target, key);
    lemma_copies_hold(source, target, MirrorSpec::Copy(key));
    lemma_copies_hold(source, target, MirrorSpec::Update(key));
    lemma_copies_hold(source, target, MirrorSpec::Delete(key));
    lemma_deletes_hold(source, target, MirrorSpec::Copy(key));
    lemma_deletes_hold(source, target, MirrorSpec::Update(key));
    lemma_deletes_hold(source, target, MirrorSpec::Delete(key));
    if lists(source, key) {
        let i = choose|i: int| 0 <= i < source.len() && (#[trigger] source[i]).location == key;
        assert(mirror_of(source[i], target) == mirror_of(source[i], target));
    }
    if lists(target, key) {
        let j = choose|j: int| 0 <= j < target.len() && (#[trigger] target[j]).location == key;
        assert(object_of(source, target[j].location) == object_of(source, key));
    }
    assert forall|i: int, j: int|
        0 <= i < source.len() && 0 <= j < target.len() && (#[trigger] source[i]).location == key && (
        #[trigger] target[j]).location == key implies (plan.contains(MirrorSpec::Update(key))
        <==> source[i].last_modified.later_than(target[j].last_modified) || source[i].size
        != target[j].size) by {
        let t = object_of(target, key)->0;
        let k = target.index_of(t);
        assert(target[k].location == key);
        assert(k == j) by {
            if k < j {
                assert(target[k].location != target[j].location);
            } else if j < k {
                assert(target[j].location != target[k].location);
            }
        }
        if plan.contains(MirrorSpec::Update(key)) {
            let u = choose|u: int|
                0 <= u < source.len() && mirror_of(#[trigger] source[u], target) == Some(
                    MirrorSpec::Update(key),
                );
            assert(source[u].location == key);
            assert(u == i) by {
                if u < i {
                    assert(source[u].location != source[i].location);
                } else if i < u {
                    assert(source[i].location != source[u].location);
                }
            }
        } else {
            assert(mirror_of(source[i], target) != Some(MirrorSpec::Update(key)));
        }
    }
}

/// The bytes of those objects of the source that a sync of each of them alone would copy.
pub open spec fn bytes_due(source: Seq<scan::ScanSpec>, target: Seq<scan::ScanSpec>) -> nat
    decreases source.len(),
{
    if source.len() == 0 {
        0
    } else {
        bytes_due(source.drop_last(), target) + if mirror_copies(seq![source.last()], target).len()
            > 0 {
            source.last().size as nat
        } else {
            0
        }
    }
}

/// What a sync of a mirror amounts to is what it does: as many objects are counted as
/// copied, updated and deleted as there are such actions.
pub proof fn a_mirror_counts_what_it_does(source: Seq<scan::ScanSpec>, target: Seq<scan::ScanSpec>)
    requires
        source.len() <= usize::MAX,
        target.len() <= usize::MAX,
    ensures
        ({
            let plan = mirror_plan(source, target);
            let r = mirror_report(source, target);
            &&& r.copied == plan.filter(|a: MirrorSpec| a is Copy).len()
            &&& r.updated == plan.filter(|a: MirrorSpec| a is Update).len()
            &&& r.deleted == plan.filter(|a: MirrorSpec| a is Delete).len()
            &&& bytes_due(source, target) <= u64::MAX ==> r.bytes_copied == bytes_due(
                source,
                target,
            )
        }),
{
    let a = mirror_copies(source, target);
    let b = mirror_deletes(source, target);
    lemma_copies_counted(source, target);
    lemma_deletes_counted(source, target);
    Seq::filter_distributes_over_add(a, b, |x: MirrorSpec| x is Copy);
    Seq::filter_distributes_over_add(a, b, |x: MirrorSpec| x is Update);
    Seq::filter_distributes_over_add(a, b, |x: MirrorSpec| x is Delete);
}

proof fn lemma_copies_counted(source: Seq<scan::ScanSpec>, target: Seq<scan::ScanSpec>)
    requires
        source.len() <= usize::MAX,
    ensures
        ({
            let a = mirror_copies(source, target);
            let r = copies_report(source, target);
            &&& r.copied == a.filter(|x: MirrorSpec| x is Copy).len()
            &&& r.updated == a.filter(|x: MirrorSpec| x is Update).len()
            &&& a.filter(|x: MirrorSpec| x is Delete).len() == 0
            &&& r.copied + r.updated <= source.len()
            &&& bytes_due(source, target) <= u64::MAX ==> r.bytes_copied == bytes_due(
                source,
                target,
            )
        }),
    decreases source.len(),
{
    reveal(Seq::filter);
    if source.len() > 0 {
        let head = source.drop_last();
        let o = source.last();
        lemma_copies_counted(head, target);
        let before = mirror_copies(head, target);
        lemma_object_of(target, o.location);
        let one = mirror_copies(seq![o], target);
        assert(seq![o].drop_last() =~= Seq::<scan::ScanSpec>::empty());
        assert(mirror_copies(Seq::empty(), target) =~= Seq::<MirrorSpec>::empty());
        assert(one.len() > 0 <==> mirror_of(o, target) is Some);
        if let Some(x) = mirror_of(o, target) {
            before.lemma_filter_push(x, |y: MirrorSpec| y is Copy);
            before.lemma_filter_push(x, |y: MirrorSpec| y is Update);
            before.lemma_filter_push(x, |y: MirrorSpec| y is Delete);
        }
    }
}

proof fn lemma_deletes_counted(source: Seq<scan::ScanSpec>, target: Seq<scan::ScanSpec>)
    ensures
        ({
            let b = mirror_deletes(source, target);
            &&& b.len() <= target.len()
            &&& b.filter(|x: MirrorSpec| x is Delete).len() == b.len()
            &&& b.filter(|x: MirrorSpec| x is Copy).len() == 0
            &&& b.filter(|x: MirrorSpec| x is Update).len() == 0
        }),
    decreases target.len(),
{
    reveal(Seq::filter);
    if target.len() > 0 {
        let head = target.drop_last();
        lemma_deletes_counted(source, head);
        let before = mirror_deletes(source, head);
        let x = MirrorSpec::Delete(target.last().location);
        before.lemma_filter_push(x, |y: MirrorSpec| y is Copy);
        before.lemma_filter_push(x, |y: MirrorSpec| y is Update);
        before.lemma_filter_push(x, |y: MirrorSpec| y is Delete);
    }
}

} // verus!
