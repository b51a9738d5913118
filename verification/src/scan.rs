//! Rebuilding the catalog from what shards hold.

use vstd::prelude::*;
use vstd::string::*;
use crate::balance;
use crate::catalog;
use crate::catalog::PlacementEntry;
use crate::error;
use crate::error::ShardError;
use crate::ids;
use crate::ids::{has_id, ShardId};
use crate::metadata;
use crate::metadata::is_sidecar;
use crate::placement;
use crate::put;
use crate::store;
use crate::store::{ShardHealth, ShardedObjectStore};
use crate::string_map::StringMap;
use crate::text;
use crate::time::Timestamp;

verus! {

/// An object that a shard lists.
#[derive(Debug)]
pub struct Scanned {
    pub location: String,
    pub size: u64,
    pub last_modified: Timestamp,
    /// The length of its metadata, where a raw store tells it.
    pub meta_len: u16,
}

/// An object that a shard lists.
pub struct ScanSpec {
    pub location: Seq<char>,
    pub size: u64,
    pub last_modified: Timestamp,
    pub meta_len: u16,
}

impl View for Scanned {
    type V = ScanSpec;

    open spec fn view(&self) -> ScanSpec {
        ScanSpec {
            location: self.location@,
            size: self.size,
            last_modified: self.last_modified,
            meta_len: self.meta_len,
        }
    }
}

/// Objects that a shard lists.
pub open spec fn scan_views(v: Seq<Scanned>) -> Seq<ScanSpec> {
    Seq::new(v.len(), |i: int| v[i]@)
}

/// What scanning a shard gave: the objects, or the error in words.
pub open spec fn scan_view(r: Result<Vec<Scanned>, String>) -> Result<Seq<ScanSpec>, Seq<char>> {
    match r {
        Ok(v) => Ok(scan_views(v@)),
        Err(e) => Err(e@),
    }
}

/// Whether an object is an object of its own, and no sidecar.
pub open spec fn is_own() -> spec_fn(ScanSpec) -> bool {
    |o: ScanSpec| !metadata::names_sidecar(o.location)
}

// -- The whole catalog ------------------------------------------------------

/// The entries after one more object was seen on a shard. The first shard that has it
/// tells its size and time, and the longest metadata counts.
pub open spec fn object_seen(entries: catalog::Entries, shard: usize, o: ScanSpec) -> catalog::Entries {
    if metadata::names_sidecar(o.location) {
        entries
    } else if entries.contains_key(o.location) {
        let e = entries[o.location];
        entries.insert(
            o.location,
            catalog::Placement {
                shards: ids::with(e.shards, shard),
                meta_len: if o.meta_len > e.meta_len {
                    o.meta_len
                } else {
                    e.meta_len
                },
                ..e
            },
        )
    } else {
        entries.insert(
            o.location,
            catalog::placed(seq![shard], o.size, None, o.meta_len, o.last_modified),
        )
    }
}

/// The entries after the objects of a shard were seen.
pub open spec fn shard_seen(entries: catalog::Entries, shard: usize, objects: Seq<ScanSpec>) -> catalog::Entries
    decreases objects.len(),
{
    if objects.len() == 0 {
        entries
    } else {
        object_seen(shard_seen(entries, shard, objects.drop_last()), shard, objects.last())
    }
}

/// What scanning shards gave: each with its objects, or nothing if that failed.
pub type Scans = Seq<(usize, Option<Seq<ScanSpec>>)>;

/// The entries that scanned shards give.
pub open spec fn merged(scans: Scans) -> catalog::Entries
    decreases scans.len(),
{
    if scans.len() == 0 {
        Map::empty()
    } else {
        let head = merged(scans.drop_last());
        match scans.last().1 {
            Some(objects) => shard_seen(head, scans.last().0, objects),
            None => head,
        }
    }
}

/// How many objects were seen, counting each copy.
pub open spec fn seen_count(scans: Scans) -> nat
    decreases scans.len(),
{
    if scans.len() == 0 {
        0
    } else {
        seen_count(scans.drop_last()) + (match scans.last().1 {
            Some(objects) => objects.filter(is_own()).len(),
            None => 0,
        })
    }
}

/// What scanning shards gave, in the terms of the model.
pub open spec fn scans_view(v: Seq<(usize, Option<Vec<Scanned>>)>) -> Scans {
    Seq::new(
        v.len(),
        |i: int|
            (
                v[i].0,
                match v[i].1 {
                    Some(objects) => Some(scan_views(objects@)),
                    None => None,
                },
            ),
    )
}

fn see_object(entries: &mut StringMap<PlacementEntry>, shard: ShardId, o: &Scanned) -> (own: bool)
    ensures
        final(entries)@ == object_seen(old(entries)@, shard, o@),
        own == is_own()(o@),
{
    if is_sidecar(o.location.as_str()) {
        return false;
    }
    let entry = match entries.get(o.location.as_str()) {
        Some(e) => {
            let mut e = e.clone();
            if o.meta_len > e.meta_len {
                e.meta_len = o.meta_len;
            }
            if !has_id(e.shards.as_slice(), shard) {
                e.shards.push(shard);
            }
            e
        },
        None => {
            let mut shards: Vec<ShardId> = Vec::new();
            shards.push(shard);
            assert(shards@ =~= seq![shard]);
            PlacementEntry {
                shards,
                size: o.size,
                crc32c: None,
                updated: o.last_modified,
                meta_len: o.meta_len,
            }
        },
    };
    entries.insert(o.location.clone(), entry);
    true
}

fn see_shard(entries: &mut StringMap<PlacementEntry>, shard: ShardId, objects: &Vec<Scanned>) -> (n:
    usize)
    ensures
        final(entries)@ == shard_seen(old(entries)@, shard, scan_views(objects@)),
        n == scan_views(objects@).filter(is_own()).len(),
{
    let ghost all = scan_views(objects@);
    let mut n: usize = 0;
    let mut i: usize = 0;
    proof {
        placement::lemma_filter_none(all, is_own());
        assert(all.take(0) =~= Seq::<ScanSpec>::empty());
    }
    while i < objects.len()
        invariant
            i <= objects.len(),
            all == scan_views(objects@),
            entries@ == shard_seen(old(entries)@, shard, all.take(i as int)),
            n == all.take(i as int).filter(is_own()).len(),
            n <= i,
        decreases objects.len() - i,
    {
        proof {
            placement::lemma_filter_step(all, i as int, is_own());
            assert(all.take(i + 1).drop_last() =~= all.take(i as int));
            assert(all.take(i + 1).last() == objects@[i as int]@);
        }
        if see_object(entries, shard, &objects[i]) {
            n = n + 1;
        }
        i = i + 1;
    }
    assert(all.take(i as int) =~= all);
    n
}

impl ShardedObjectStore {
    /// Replaces the catalog by what all scanned shards hold, after which nothing is
    /// unsaved. How many objects were seen, counting each copy. A shard that could
    /// not be scanned is left out.
    pub fn rebuild_catalog(&mut self, scans: &Vec<(ShardId, Option<Vec<Scanned>>)>) -> (total: usize)
        ensures
            final(self)@ == (store::ClusterState {
                entries: merged(scans_view(scans@)),
                dirty: false,
                ..old(self)@
            }),
            total == balance::capped(seen_count(scans_view(scans@))),
            store::valid(old(self)@) ==> store::valid(final(self)@),
    {
        let ghost all = scans_view(scans@);
        let mut entries: StringMap<PlacementEntry> = StringMap::new();
        let mut total: usize = 0;
        let mut i: usize = 0;
        assert(all.take(0) =~= Seq::empty());
        while i < scans.len()
            invariant
                i <= scans.len(),
                all == scans_view(scans@),
                entries@ == merged(all.take(i as int)),
                total == balance::capped(seen_count(all.take(i as int))),
                self@ == old(self)@,
            decreases scans.len() - i,
        {
            proof {
                assert(all.take(i + 1).drop_last() =~= all.take(i as int));
                assert(all.take(i + 1).last() == all[i as int]);
            }
            match &scans[i].1 {
                Some(objects) => {
                    let n: usize = see_shard(&mut entries, scans[i].0, objects);
                    total = total.saturating_add(n);
                },
                None => {},
            }
            i = i + 1;
        }
        assert(all.take(i as int) =~= all);
        self.catalog_mut().replace(entries);
        self.catalog_mut().clear_dirty();
        total
    }
}

// -- One shard --------------------------------------------------------------

/// Whether the objects of a shard are listed along with their sidecars: not by a raw
/// store.
pub open spec fn lists_sidecars(c: store::ClusterState, shard: usize) -> bool {
    !(c.refs is Some && c.refs->0.raw(shard) is Some)
}

/// The entries after the objects of a shard were added.
pub open spec fn scan_added(
    entries: catalog::Entries,
    shard: usize,
    objects: Seq<ScanSpec>,
    sidecars: bool,
    now: Timestamp,
) -> catalog::Entries
    decreases objects.len(),
{
    if objects.len() == 0 {
        entries
    } else {
        let head = scan_added(entries, shard, objects.drop_last(), sidecars, now);
        let o = objects.last();
        if !sidecars {
            catalog::replica_added(head, o.location, shard, o.size, o.meta_len, now)
        } else if is_own()(o) {
            catalog::replica_added(head, o.location, shard, o.size, 0, now)
        } else {
            head
        }
    }
}

/// How many objects a scan of a shard counts.
pub open spec fn scan_count(objects: Seq<ScanSpec>, sidecars: bool) -> nat {
    if sidecars {
        objects.filter(is_own()).len()
    } else {
        objects.len()
    }
}

/// The cluster without any reference to a shard.
pub open spec fn purged(c: store::ClusterState, shard: usize) -> store::ClusterState {
    store::ClusterState {
        entries: catalog::shard_purged(c.entries, shard),
        dirty: c.dirty || catalog::keys_on_shard(c.entries, shard).len() > 0,
        ..c
    }
}

/// The cluster after the objects of a shard were added, and their number, or the
/// error of the scan.
pub open spec fn scan_taken(
    c: store::ClusterState,
    shard: usize,
    scan: Result<Seq<ScanSpec>, Seq<char>>,
    now: Timestamp,
) -> (store::ClusterState, Result<usize, error::ErrorSpec>) {
    let sidecars = lists_sidecars(c, shard);
    match scan {
        Ok(objects) => (
            store::ClusterState {
                entries: scan_added(c.entries, shard, objects, sidecars, now),
                dirty: c.dirty || scan_count(objects, sidecars) > 0,
                ..c
            },
            Ok(scan_count(objects, sidecars) as usize),
        ),
        Err(e) => (c, Err(error::ErrorSpec::ObjectStore(e))),
    }
}

/// The cluster after a shard was purged and scanned again.
pub open spec fn rescanned(
    c: store::ClusterState,
    shard: usize,
    scan: Result<Seq<ScanSpec>, Seq<char>>,
    now: Timestamp,
) -> (store::ClusterState, Result<usize, error::ErrorSpec>) {
    if shard < c.shards.len() {
        scan_taken(purged(c, shard), shard, scan, now)
    } else {
        (c, Err(error::ErrorSpec::NoShards))
    }
}

/// The outcome of a scan, in the terms of the model.
pub open spec fn count_view(r: Result<usize, ShardError>) -> Result<usize, error::ErrorSpec> {
    match r {
        Ok(n) => Ok(n),
        Err(e) => Err(e@),
    }
}

impl ShardedObjectStore {
    fn tells_raw(&self, shard: ShardId) -> (r: bool)
        ensures
            r == !lists_sidecars(self@, shard),
    {
        match self.raw_refs() {
            Some(refs) => refs.get(shard).is_some(),
            None => false,
        }
    }

    fn add_scan(&mut self, shard: ShardId, scan: &Result<Vec<Scanned>, String>, now: Timestamp) -> (r:
        Result<usize, ShardError>)
        ensures
            (final(self)@, count_view(r)) == scan_taken(old(self)@, shard, scan_view(*scan), now),
            store::valid(old(self)@) ==> store::valid(final(self)@),
    {
        let objects = match scan {
            Ok(objects) => objects,
            Err(e) => {
                return Err(ShardError::ObjectStore(e.clone()));
            },
        };
        let ghost c = self@;
        let ghost all = scan_views(objects@);
        let ghost sidecars = lists_sidecars(c, shard);
        let raw = self.tells_raw(shard);
        let mut n: usize = 0;
        let mut i: usize = 0;
        proof {
            placement::lemma_filter_none(all, is_own());
            assert(all.take(0) =~= Seq::<ScanSpec>::empty());
        }
        while i < objects.len()
            invariant
                i <= objects.len(),
                c == old(self)@,
                all == scan_views(objects@),
                sidecars == lists_sidecars(c, shard),
                raw == !sidecars,
                self@ == (store::ClusterState {
                    entries: scan_added(c.entries, shard, all.take(i as int), sidecars, now),
                    dirty: c.dirty || scan_count(all.take(i as int), sidecars) > 0,
                    ..c
                }),
                n == scan_count(all.take(i as int), sidecars),
                n <= i,
                store::valid(c) ==> store::valid(self@),
            decreases objects.len() - i,
        {
            proof {
                placement::lemma_filter_step(all, i as int, is_own());
                assert(all.take(i + 1).drop_last() =~= all.take(i as int));
                assert(all.take(i + 1).last() == objects@[i as int]@);
            }
            let o = &objects[i];
            if raw {
                self.catalog_mut().add_replica_at(
                    o.location.as_str(),
                    shard,
                    o.size,
                    o.meta_len,
                    now,
                );
                n = n + 1;
            } else if !is_sidecar(o.location.as_str()) {
                self.catalog_mut().add_replica_at(o.location.as_str(), shard, o.size, 0, now);
                n = n + 1;
            }
            i = i + 1;
        }
        assert(all.take(i as int) =~= all);
        Ok(n)
    }

    /// Rebuilds the entries of one shard from a scan of it. The entries of other
    /// shards stay. How many objects were found.
    pub fn rebuild_catalog_for_shard(
        &mut self,
        shard_id: ShardId,
        scan: &Result<Vec<Scanned>, String>,
        now: Timestamp,
    ) -> (r: Result<usize, ShardError>)
        ensures
            (final(self)@, count_view(r)) == rescanned(
                old(self)@,
                shard_id,
                scan_view(*scan),
                now,
            ),
            store::valid(old(self)@) ==> store::valid(final(self)@),
    {
        if shard_id >= self.shard_count() {
            return Err(ShardError::NoShards);
        }
        self.catalog_mut().remove_all_for_shard(shard_id);
        self.add_scan(shard_id, scan, now)
    }
}

// -- Invalidating a shard ---------------------------------------------------

/// A shard that is being invalidated.
pub struct InvalidateState {
    pub shard: usize,
    /// The keys that the catalog had on it.
    pub keys: Seq<Seq<char>>,
}

/// The cluster when a shard begins to be invalidated: the shard is degraded, and the
/// catalog no longer refers to it.
pub open spec fn invalidate_begun(c: store::ClusterState, shard: usize) -> (
    store::ClusterState,
    Result<InvalidateState, error::ErrorSpec>,
) {
    if shard < c.shards.len() {
        (
            purged(
                store::with_shard(
                    c,
                    shard,
                    store::ShardInfo {
                        health: ShardHealth::Degraded,
                        ..c.shards[shard as int]
                    },
                ),
                shard,
            ),
            Ok(InvalidateState { shard, keys: catalog::keys_on_shard(c.entries, shard) }),
        )
    } else {
        (c, Err(error::ErrorSpec::NoShards))
    }
}

/// What invalidating a shard has led to.
pub struct InvalidateSpec {
    pub shard_id: usize,
    pub entries_purged: nat,
    pub entries_restored: usize,
    pub missing_keys: Seq<Seq<char>>,
    pub scan_ok: bool,
}

/// Whether the catalog has an object on a shard.
pub open spec fn on_shard(entries: catalog::Entries, shard: usize, key: Seq<char>) -> bool {
    entries.contains_key(key) && entries[key].shards.contains(shard)
}

/// The keys that the catalog no longer has on a shard.
pub open spec fn missing(entries: catalog::Entries, shard: usize, keys: Seq<Seq<char>>) -> Seq<
    Seq<char>,
> {
    keys.filter(|k: Seq<char>| !on_shard(entries, shard, k))
}

/// The cluster after a shard that was invalidated has been scanned again. If the scan
/// succeeded the shard is healthy, otherwise it stays degraded.
pub open spec fn invalidate_finished(
    c: store::ClusterState,
    s: InvalidateState,
    scan: Result<Seq<ScanSpec>, Seq<char>>,
    now: Timestamp,
) -> (store::ClusterState, InvalidateSpec) {
    let (after, found) = rescanned(c, s.shard, scan, now);
    (
        if found is Ok {
            store::with_shard(
                after,
                s.shard,
                store::ShardInfo {
                    health: ShardHealth::Healthy,
                    offline_since: None,
                    ..after.shards[s.shard as int]
                },
            )
        } else {
            after
        },
        InvalidateSpec {
            shard_id: s.shard,
            entries_purged: s.keys.len(),
            entries_restored: match found {
                Ok(n) => n,
                Err(_) => 0,
            },
            missing_keys: missing(after.entries, s.shard, s.keys),
            scan_ok: found is Ok,
        },
    )
}

/// What invalidating a shard has led to.
#[derive(Debug)]
pub struct InvalidateReport {
    /// The shard that was invalidated.
    pub shard_id: ShardId,
    /// How many entries referred to it.
    pub entries_purged: usize,
    /// How many objects were found on it.
    pub entries_restored: usize,
    /// The keys that the catalog had on it and that were not found.
    pub missing_keys: Vec<String>,
    /// Whether the scan succeeded.
    pub scan_ok: bool,
}

impl View for InvalidateReport {
    type V = InvalidateSpec;

    open spec fn view(&self) -> InvalidateSpec {
        InvalidateSpec {
            shard_id: self.shard_id,
            entries_purged: self.entries_purged as nat,
            entries_restored: self.entries_restored,
            missing_keys: text::views(self.missing_keys@),
            scan_ok: self.scan_ok,
        }
    }
}

/// A shard that is being invalidated.
#[derive(Debug)]
pub struct InvalidateJob {
    shard: ShardId,
    keys: Vec<String>,
}

impl View for InvalidateJob {
    type V = InvalidateState;

    closed spec fn view(&self) -> InvalidateState {
        InvalidateState { shard: self.shard, keys: text::views(self.keys@) }
    }
}

/// A shard that may be invalidated, in the terms of the model.
pub open spec fn invalidate_view(r: Result<InvalidateJob, ShardError>) -> Result<
    InvalidateState,
    error::ErrorSpec,
> {
    match r {
        Ok(j) => Ok(j@),
        Err(e) => Err(e@),
    }
}

impl ShardedObjectStore {
    fn keys_of_shard(&self, shard: ShardId) -> (r: Vec<String>)
        ensures
            text::views(r@) == catalog::keys_on_shard(self@.entries, shard),
    {
        let entries = self.catalog().entries_for_shard(shard);
        let ghost keys = catalog::keys_on_shard(self@.entries, shard);
        let mut r: Vec<String> = Vec::new();
        let mut i: usize = 0;
        assert(catalog::entry_views(entries@).len() == keys.len());
        assert(text::views(r@) =~= keys.take(0));
        while i < entries.len()
            invariant
                i <= entries.len(),
                catalog::entry_views(entries@) == catalog::pairs(self@.entries, keys),
                entries@.len() == keys.len(),
                text::views(r@) == keys.take(i as int),
            decreases entries.len() - i,
        {
            assert(catalog::entry_views(entries@)[i as int].0 == catalog::pairs(
                self@.entries,
                keys,
            )[i as int].0);
            assert(entries@[i as int].0@ == keys[i as int]);
            let ghost before = r@;
            r.push(entries[i].0.clone());
            assert(text::views(r@) =~= text::views(before).push(keys[i as int]));
            assert(text::views(r@) =~= keys.take(i + 1));
            i = i + 1;
        }
        assert(keys.take(i as int) =~= keys);
        r
    }

    /// Begins to invalidate a shard. It is to be scanned again.
    pub fn invalidate_shard(&mut self, shard_id: ShardId) -> (r: Result<InvalidateJob, ShardError>)
        ensures
            (final(self)@, invalidate_view(r)) == invalidate_begun(old(self)@, shard_id),
            store::valid(old(self)@) ==> store::valid(final(self)@),
    {
        match self.shard_info(shard_id) {
            None => Err(ShardError::NoShards),
            Some(s) => {
                let mut s = s;
                s.health = ShardHealth::Degraded;
                self.store_shard(shard_id, s);
                let keys = self.keys_of_shard(shard_id);
                self.catalog_mut().remove_all_for_shard(shard_id);
                Ok(InvalidateJob { shard: shard_id, keys })
            },
        }
    }

    fn lists(&self, key: &str, shard: ShardId) -> (r: bool)
        ensures
            r == on_shard(self@.entries, shard, key@),
    {
        match self.placement(key) {
            Some(e) => has_id(e.shards.as_slice(), shard),
            None => false,
        }
    }
}

impl InvalidateJob {
    /// Takes what scanning the shard again gave.
    pub fn finish(
        &self,
        store: &mut ShardedObjectStore,
        scan: &Result<Vec<Scanned>, String>,
        now: Timestamp,
    ) -> (r: InvalidateReport)
        ensures
            (final(store)@, r@) == invalidate_finished(
                old(store)@,
                self@,
                scan_view(*scan),
                now,
            ),
            store::valid(old(store)@) ==> store::valid(final(store)@),
    {
        let found = store.rebuild_catalog_for_shard(self.shard, scan, now);
        let ghost after = store@;
        let ghost keys = text::views(self.keys@);
        let ghost pred = |k: Seq<char>| !on_shard(after.entries, self.shard, k);
        let mut missing_keys: Vec<String> = Vec::new();
        let mut i: usize = 0;
        proof {
            placement::lemma_filter_none(keys, pred);
            assert(text::views(missing_keys@) =~= keys.take(0).filter(pred));
        }
        while i < self.keys.len()
            invariant
                i <= self.keys.len(),
                after == store@,
                keys == text::views(self.keys@),
                pred == (|k: Seq<char>| !on_shard(after.entries, self.shard, k)),
                text::views(missing_keys@) == keys.take(i as int).filter(pred),
            decreases self.keys.len() - i,
        {
            proof {
                placement::lemma_filter_step(keys, i as int, pred);
            }
            if !store.lists(self.keys[i].as_str(), self.shard) {
                let ghost before = missing_keys@;
                missing_keys.push(self.keys[i].clone());
                assert(text::views(missing_keys@) =~= text::views(before).push(keys[i as int]));
            }
            i = i + 1;
        }
        assert(keys.take(i as int) =~= keys);
        let mut entries_restored: usize = 0;
        let mut scan_ok = false;
        if let Ok(n) = found {
            entries_restored = n;
            scan_ok = true;
            if let Some(s) = store.shard_info(self.shard) {
                let mut s = s;
                s.health = ShardHealth::Healthy;
                s.offline_since = None;
                store.store_shard(self.shard, s);
            }
        }
        InvalidateReport {
            shard_id: self.shard,
            entries_purged: self.keys.len(),
            entries_restored,
            missing_keys,
            scan_ok,
        }
    }
}

// -- Attaching a shard ------------------------------------------------------

/// A shard that is being attached.
pub struct AttachState {
    pub shard: usize,
    /// What was invalidated first, unless what the shard holds is trusted.
    pub invalidated: Option<InvalidateState>,
}

/// A shard as it is attached. It takes no writes until it has been scanned.
pub open spec fn attaching(s: store::ShardInfo) -> store::ShardInfo {
    store::ShardInfo {
        health: ShardHealth::Syncing,
        free_space: u64::MAX,
        offline_since: None,
        suppress_replication: false,
        detach_reason: None,
        ..s
    }
}

/// The cluster when a shard begins to be attached.
pub open spec fn attach_begun(c: store::ClusterState, shard: usize, force: bool) -> (
    store::ClusterState,
    Result<AttachState, error::ErrorSpec>,
) {
    if shard >= c.shards.len() {
        (c, Err(error::ErrorSpec::NoShards))
    } else {
        let attached = store::with_shard(c, shard, attaching(c.shards[shard as int]));
        if force {
            (attached, Ok(AttachState { shard, invalidated: None }))
        } else {
            let (after, state) = invalidate_begun(attached, shard);
            (after, Ok(AttachState { shard, invalidated: Some(state->Ok_0) }))
        }
    }
}

/// The cluster after a shard that was attached has been scanned. A trusted shard is
/// added to the catalog as it is, and is offline if it could not be scanned.
pub open spec fn attach_finished(
    c: store::ClusterState,
    s: AttachState,
    scan: Result<Seq<ScanSpec>, Seq<char>>,
    now: Timestamp,
) -> (store::ClusterState, Result<usize, error::ErrorSpec>) {
    let (after, found) = match s.invalidated {
        None => scan_taken(c, s.shard, scan, now),
        Some(i) => {
            let (after, report) = invalidate_finished(c, i, scan, now);
            (after, Ok::<usize, error::ErrorSpec>(report.entries_restored))
        },
    };
    if s.shard < after.shards.len() {
        let info = after.shards[s.shard as int];
        (
            store::with_shard(
                after,
                s.shard,
                if found is Ok {
                    store::ShardInfo { health: ShardHealth::Healthy, ..info }
                } else {
                    store::ShardInfo {
                        health: ShardHealth::Offline,
                        offline_since: Some(now),
                        ..info
                    }
                },
            ),
            found,
        )
    } else {
        (after, found)
    }
}

/// A shard that is being attached.
#[derive(Debug)]
pub struct AttachJob {
    shard: ShardId,
    invalidated: Option<InvalidateJob>,
}

impl View for AttachJob {
    type V = AttachState;

    closed spec fn view(&self) -> AttachState {
        AttachState {
            shard: self.shard,
            invalidated: match self.invalidated {
                Some(j) => Some(j@),
                None => None,
            },
        }
    }
}

/// A shard that may be attached, in the terms of the model.
pub open spec fn attach_view(r: Result<AttachJob, ShardError>) -> Result<
    AttachState,
    error::ErrorSpec,
> {
    match r {
        Ok(j) => Ok(j@),
        Err(e) => Err(e@),
    }
}

impl ShardedObjectStore {
    /// Begins to attach a shard. It is to be scanned. With `force` what it holds is
    /// trusted, and added to the catalog; otherwise the shard is invalidated first.
    pub fn attach_shard(&mut self, shard_id: ShardId, force: bool) -> (r: Result<
        AttachJob,
        ShardError,
    >)
        ensures
            (final(self)@, attach_view(r)) == attach_begun(old(self)@, shard_id, force),
            store::valid(old(self)@) ==> store::valid(final(self)@),
    {
        let info = match self.shard_info(shard_id) {
            None => {
                return Err(ShardError::NoShards);
            },
            Some(s) => s,
        };
        let mut s = info;
        s.health = ShardHealth::Syncing;
        s.free_space = u64::MAX;
        s.offline_since = None;
        s.suppress_replication = false;
        s.detach_reason = None;
        self.store_shard(shard_id, s);
        if force {
            return Ok(AttachJob { shard: shard_id, invalidated: None });
        }
        let job = self.invalidate_shard(shard_id)?;
        Ok(AttachJob { shard: shard_id, invalidated: Some(job) })
    }
}

impl AttachJob {
    /// Takes what scanning the shard gave. How many objects were found.
    pub fn finish(
        &self,
        store: &mut ShardedObjectStore,
        scan: &Result<Vec<Scanned>, String>,
        now: Timestamp,
    ) -> (r: Result<usize, ShardError>)
        ensures
            (final(store)@, count_view(r)) == attach_finished(
                old(store)@,
                self@,
                scan_view(*scan),
                now,
            ),
            store::valid(old(store)@) ==> store::valid(final(store)@),
    {
        let found = match &self.invalidated {
            None => store.add_scan(self.shard, scan, now),
            Some(j) => {
                let report = j.finish(store, scan, now);
                Ok(report.entries_restored)
            },
        };
        if let Some(s) = store.shard_info(self.shard) {
            let mut s = s;
            if found.is_ok() {
                s.health = ShardHealth::Healthy;
            } else {
                s.health = ShardHealth::Offline;
                s.offline_since = Some(now);
            }
            store.store_shard(self.shard, s);
        }
        found
    }
}

// -- Moving single copies ---------------------------------------------------

/// The cluster after an object was copied to a shard, with metadata of some length, and
/// its size.
pub open spec fn copied(
    c: store::ClusterState,
    key: Seq<char>,
    to: usize,
    size: u64,
    meta_len: u16,
    now: Timestamp,
) -> store::ClusterState {
    put::with_entries(c, catalog::replica_added(c.entries, key, to, size, meta_len, now))
}

/// The cluster after a copy of an object was deleted.
pub open spec fn copy_removed(c: store::ClusterState, key: Seq<char>, shard: usize) -> store::ClusterState {
    store::ClusterState {
        entries: catalog::shard_removed(c.entries, key, shard),
        dirty: c.dirty || c.entries.contains_key(key),
        ..c
    }
}

impl ShardedObjectStore {
    /// Whether an object can be copied from one shard to another: both must exist.
    pub fn replicate_object(&self, from_shard: ShardId, to_shard: ShardId) -> (r: Result<
        (),
        ShardError,
    >)
        ensures
            (match r {
                Ok(()) => from_shard < self@.shards.len() && to_shard < self@.shards.len(),
                Err(e) => e@ == error::ErrorSpec::NoShards && !(from_shard < self@.shards.len()
                    && to_shard < self@.shards.len()),
            }),
    {
        if from_shard >= self.shard_count() || to_shard >= self.shard_count() {
            Err(ShardError::NoShards)
        } else {
            Ok(())
        }
    }

    /// Records that an object was copied to a shard, with metadata of some length if
    /// it has any.
    pub fn record_copy(
        &mut self,
        key: &str,
        to_shard: ShardId,
        size: u64,
        meta_len: Option<usize>,
        now: Timestamp,
    )
        ensures
            final(self)@ == copied(
                old(self)@,
                key@,
                to_shard,
                size,
                (match meta_len {
                    Some(n) => n as u16,
                    None => 0,
                }),
                now,
            ),
            store::valid(old(self)@) ==> store::valid(final(self)@),
    {
        let n: u16 = match meta_len {
            Some(n) => n as u16,
            None => 0,
        };
        self.catalog_mut().add_replica_at(key, to_shard, size, n, now);
    }

    /// Removes a copy of an object from the catalog, given whether it was deleted
    /// from its shard, or the error in words.
    pub fn remove_replica(&mut self, key: &str, shard_id: ShardId, deleted: Result<(), String>) -> (r:
        Result<(), ShardError>)
        ensures
            match r {
                Ok(()) => shard_id < old(self)@.shards.len() && deleted is Ok && final(self)@
                    == copy_removed(old(self)@, key@, shard_id),
                Err(e) => final(self)@ == old(self)@ && (if shard_id < old(self)@.shards.len() {
                    deleted is Err && e@ == error::ErrorSpec::ObjectStore((deleted->Err_0)@)
                } else {
                    e@ == error::ErrorSpec::NoShards
                }),
            },
            store::valid(old(self)@) ==> store::valid(final(self)@),
    {
        if shard_id >= self.shard_count() {
            return Err(ShardError::NoShards);
        }
        match deleted {
            Err(e) => Err(ShardError::ObjectStore(e)),
            Ok(()) => {
                self.catalog_mut().remove_shard(key, shard_id);
                Ok(())
            },
        }
    }
}

/// Whether a shard is probed when access is validated: not if it is offline, detached
/// or syncing.
pub open spec fn is_probed(s: store::ShardInfo) -> bool {
    !s.health.unavailable()
}

/// The shards with whether each can be accessed, given what probing them gave.
pub open spec fn access(shards: Seq<store::ShardInfo>, probes: Seq<bool>) -> Seq<(usize, bool)> {
    Seq::new(shards.len(), |i: int| (shards[i].id, is_probed(shards[i]) && probes[i]))
}

impl ShardedObjectStore {
    /// Whether a shard is to be probed.
    pub fn is_probed(&self, id: ShardId) -> (r: bool)
        ensures
            r == (id < self@.shards.len() && is_probed(self@.shards[id as int])),
    {
        match self.shard_health(id) {
            Some(h) => !h.is_unavailable(),
            None => false,
        }
    }

    /// All shards with whether each can be accessed, given what probing each of them
    /// gave. One that is not probed cannot.
    pub fn validate_shard_access(&self, probes: &Vec<bool>) -> (r: Vec<(ShardId, bool)>)
        requires
            probes.len() == self@.shards.len(),
        ensures
            r@ == access(self@.shards, probes@),
    {
        let shards = self.shards();
        let mut r: Vec<(ShardId, bool)> = Vec::new();
        let mut i: usize = 0;
        while i < shards.len()
            invariant
                i <= shards.len(),
                shards@ == self@.shards,
                probes.len() == shards.len(),
                r@ == access(self@.shards, probes@).take(i as int),
            decreases shards.len() - i,
        {
            let ok = self.is_probed(i) && probes[i];
            r.push((shards[i].id, ok));
            assert(r@ =~= access(self@.shards, probes@).take(i + 1));
            i = i + 1;
        }
        assert(access(self@.shards, probes@).take(i as int) =~= access(self@.shards, probes@));
        r
    }
}

// -- Laws -------------------------------------------------------------------

/// Whether a shard lists an object: other than as a sidecar, where it lists those.
pub open spec fn lists_object(objects: Seq<ScanSpec>, sidecars: bool, key: Seq<char>) -> bool {
    !(sidecars && metadata::names_sidecar(key)) && exists|j: int|
        0 <= j < objects.len() && (#[trigger] objects[j]).location == key
}

/// Whether a scan shows an object on a shard.
pub open spec fn shows(scans: Scans, shard: usize, key: Seq<char>) -> bool {
    exists|i: int|
        0 <= i < scans.len() && (#[trigger] scans[i]).0 == shard && scans[i].1 is Some
            && lists_object(scans[i].1->0, true, key)
}

proof fn lemma_lists_object(objects: Seq<ScanSpec>, sidecars: bool, key: Seq<char>)
    requires
        objects.len() > 0,
    ensures
        lists_object(objects, sidecars, key) <==> lists_object(objects.drop_last(), sidecars, key)
            || (objects.last().location == key && !(sidecars && metadata::names_sidecar(key))),
{
    let head = objects.drop_last();
    if lists_object(head, sidecars, key) {
        let j = choose|j: int| 0 <= j < head.len() && (#[trigger] head[j]).location == key;
        assert(objects[j].location == key);
    }
    if lists_object(objects, sidecars, key) && objects.last().location != key {
        let j = choose|j: int| 0 <= j < objects.len() && (#[trigger] objects[j]).location == key;
        assert(head[j].location == key);
    }
    assert(objects[objects.len() - 1] == objects.last());
}

pub proof fn lemma_with(held: Seq<usize>, id: usize, x: usize)
    ensures
        ids::with(held, id).contains(x) <==> held.contains(x) || x == id,
{
    let r = ids::with(held, id);
    if held.contains(x) {
        let i = held.index_of(x);
        assert(r[i] == x);
    }
    if !held.contains(id) {
        assert(r[held.len() as int] == id);
        if r.contains(x) && x != id {
            let i = r.index_of(x);
            assert(held[i] == x);
        }
    }
}

proof fn lemma_shard_seen(
    entries: catalog::Entries,
    shard: usize,
    objects: Seq<ScanSpec>,
    id: usize,
    key: Seq<char>,
)
    ensures
        on_shard(shard_seen(entries, shard, objects), id, key) <==> on_shard(entries, id, key) || (
        id == shard && lists_object(objects, true, key)),
    decreases objects.len(),
{
    if objects.len() > 0 {
        let head = shard_seen(entries, shard, objects.drop_last());
        let o = objects.last();
        lemma_shard_seen(entries, shard, objects.drop_last(), id, key);
        lemma_lists_object(objects, true, key);
        if head.contains_key(o.location) {
            lemma_with(head[o.location].shards, shard, id);
        }
        assert(seq![shard].contains(id) <==> id == shard) by {
            assert(seq![shard][0] == shard);
        }
    }
}

/// A catalog that was rebuilt lists an object on a shard if and only if the scan of
/// that shard shows it.
pub proof fn a_rebuilt_catalog_lists_what_the_shards_hold(scans: Scans, shard: usize, key: Seq<char>)
    ensures
        on_shard(merged(scans), shard, key) <==> shows(scans, shard, key),
    decreases scans.len(),
{
    if scans.len() > 0 {
        let head = scans.drop_last();
        a_rebuilt_catalog_lists_what_the_shards_hold(head, shard, key);
        if let Some(objects) = scans.last().1 {
            lemma_shard_seen(merged(head), scans.last().0, objects, shard, key);
        }
        if shows(head, shard, key) {
            let i = choose|i: int|
                0 <= i < head.len() && (#[trigger] head[i]).0 == shard && head[i].1 is Some
                    && lists_object(head[i].1->0, true, key);
            assert(scans[i] == head[i]);
        }
        if shows(scans, shard, key) {
            let i = choose|i: int|
                0 <= i < scans.len() && (#[trigger] scans[i]).0 == shard && scans[i].1 is Some
                    && lists_object(scans[i].1->0, true, key);
            if i < head.len() {
                assert(head[i] == scans[i]);
            }
        }
        assert(scans[scans.len() - 1] == scans.last());
    }
}

proof fn lemma_scan_added(
    entries: catalog::Entries,
    shard: usize,
    objects: Seq<ScanSpec>,
    sidecars: bool,
    now: Timestamp,
    id: usize,
    key: Seq<char>,
)
    ensures
        on_shard(scan_added(entries, shard, objects, sidecars, now), id, key) <==> on_shard(
            entries,
            id,
            key,
        ) || (id == shard && lists_object(objects, sidecars, key)),
    decreases objects.len(),
{
    if objects.len() > 0 {
        let head = scan_added(entries, shard, objects.drop_last(), sidecars, now);
        let o = objects.last();
        lemma_scan_added(entries, shard, objects.drop_last(), sidecars, now, id, key);
        lemma_lists_object(objects, sidecars, key);
        if head.contains_key(o.location) {
            lemma_with(head[o.location].shards, shard, id);
        }
        assert(seq![shard].contains(id) <==> id == shard) by {
            assert(seq![shard][0] == shard);
        }
    }
}

/// After one shard was scanned again the catalog lists an object on it if and only if
/// the scan shows it, and on all other shards as before.
pub proof fn a_rescan_lists_what_the_shard_holds(
    c: store::ClusterState,
    shard: usize,
    objects: Seq<ScanSpec>,
    now: Timestamp,
    id: usize,
    key: Seq<char>,
)
    requires
        shard < c.shards.len(),
    ensures
        on_shard(rescanned(c, shard, Ok(objects), now).0.entries, id, key) <==> (if id == shard {
            lists_object(objects, lists_sidecars(c, shard), key)
        } else {
            on_shard(c.entries, id, key)
        }),
{
    let base = catalog::shard_purged(c.entries, shard);
    lemma_scan_added(base, shard, objects, lists_sidecars(c, shard), now, id, key);
    if c.entries.contains_key(key) {
        ids::lemma_without(c.entries[key].shards, shard);
        let left = ids::without(c.entries[key].shards, shard);
        if id != shard && c.entries[key].shards.contains(id) {
            assert(left.contains(id));
        }
    }
}

/// No new object goes to a shard that is being attached, where what it holds is trusted.
pub proof fn an_attached_shard_gets_no_objects_before_its_scan(
    c: store::ClusterState,
    shard: usize,
    hash: u32,
)
    requires
        shard < c.shards.len(),
        c.shards.len() <= usize::MAX,
    ensures
        ({
            let begun = attach_begun(c, shard, true).0;
            !placement::targets(begun.shards, begun.rf, hash).contains(shard)
        }),
{
    let begun = attach_begun(c, shard, true).0;
    placement::targets_are_distinct_writable_shards(begun.shards, begun.rf, hash);
}

/// Whether an object of a scan is of this key and no object before it is, of the same
/// shard or of an earlier one.
pub open spec fn is_first(scans: Scans, i: int, j: int, key: Seq<char>) -> bool {
    &&& 0 <= i < scans.len()
    &&& scans[i].1 is Some
    &&& 0 <= j < scans[i].1->0.len()
    &&& scans[i].1->0[j].location == key
    &&& forall|k: int|
        0 <= k < i && (#[trigger] scans[k]).1 is Some ==> !lists_object(scans[k].1->0, true, key)
    &&& forall|k: int| 0 <= k < j ==> (#[trigger] scans[i].1->0[k]).location != key
}

proof fn lemma_entry_seen(
    entries: catalog::Entries,
    shard: usize,
    objects: Seq<ScanSpec>,
    key: Seq<char>,
)
    ensures
        ({
            let after = shard_seen(entries, shard, objects);
            &&& after.contains_key(key) <==> entries.contains_key(key) || lists_object(
                objects,
                true,
                key,
            )
            &&& entries.contains_key(key) ==> after[key].size == entries[key].size
                && after[key].updated == entries[key].updated && after[key].crc32c
                == entries[key].crc32c && after[key].meta_len >= entries[key].meta_len
            &&& !entries.contains_key(key) && lists_object(objects, true, key) ==> (exists|j: int|
                0 <= j < objects.len() && (#[trigger] objects[j]).location == key && (forall|k: int|
                    0 <= k < j ==> (#[trigger] objects[k]).location != key) && after[key].size
                    == objects[j].size && after[key].updated == objects[j].last_modified
                    && after[key].crc32c is None)
            &&& forall|j: int|
                0 <= j < objects.len() && (#[trigger] objects[j]).location == key
                    && !metadata::names_sidecar(key) ==> after[key].meta_len >= objects[j].meta_len
        }),
    decreases objects.len(),
{
    if objects.len() == 0 {
        assert(!lists_object(objects, true, key));
    } else {
        let head = objects.drop_last();
        let before = shard_seen(entries, shard, head);
        let after = shard_seen(entries, shard, objects);
        let o = objects.last();
        lemma_entry_seen(entries, shard, head, key);
        lemma_lists_object(objects, true, key);
        assert forall|j: int|
            0 <= j < objects.len() && (#[trigger] objects[j]).location == key
                && !metadata::names_sidecar(key) implies after[key].meta_len
            >= objects[j].meta_len by {
            if j < head.len() {
                assert(head[j] == objects[j]);
                assert(lists_object(head, true, key)) by {
                    assert(head[j].location == key);
                }
            }
        }
        if !entries.contains_key(key) && lists_object(objects, true, key) {
            if lists_object(head, true, key) {
                let j = choose|j: int|
                    0 <= j < head.len() && (#[trigger] head[j]).location == key && (forall|k: int|
                        0 <= k < j ==> (#[trigger] head[k]).location != key) && before[key].size
                        == head[j].size && before[key].updated == head[j].last_modified
                        && before[key].crc32c is None;
                assert(objects[j].location == key);
                assert forall|k: int| 0 <= k < j implies (#[trigger] objects[k]).location != key by {
                    assert(head[k].location != key);
                }
            } else {
                let j = objects.len() - 1;
                assert(objects[j].location == key);
                assert forall|k: int| 0 <= k < j implies (#[trigger] objects[k]).location != key by {
                    if objects[k].location == key {
                        assert(head[k].location == key);
                        assert(lists_object(head, true, key));
                    }
                }
            }
        }
    }
}

/// What a rebuilt catalog says of an object is what the first scan that shows it says:
/// its size and its time. There is no checksum, and no scan shows longer metadata.
pub proof fn a_rebuilt_entry_says_what_the_first_scan_says(scans: Scans, key: Seq<char>)
    ensures
        merged(scans).contains_key(key) <==> exists|i: int, j: int| is_first(scans, i, j, key)
            && !metadata::names_sidecar(key),
        merged(scans).contains_key(key) ==> ({
            let e = merged(scans)[key];
            &&& e.crc32c is None
            &&& exists|i: int, j: int|
                #[trigger] is_first(scans, i, j, key) && e.size == scans[i].1->0[j].size
                    && e.updated == scans[i].1->0[j].last_modified
            &&& forall|i: int, j: int|
                0 <= i < scans.len() && scans[i].1 is Some && 0 <= j < scans[i].1->0.len()
                    && (#[trigger] scans[i].1->0[j]).location == key ==> e.meta_len
                    >= scans[i].1->0[j].meta_len
        }),
    decreases scans.len(),
{
    if scans.len() > 0 {
        let head = scans.drop_last();
        let n = scans.len() - 1;
        a_rebuilt_entry_says_what_the_first_scan_says(head, key);
        let before = merged(head);
        let after = merged(scans);
        if let Some(objects) = scans.last().1 {
            lemma_entry_seen(before, scans.last().0, objects, key);
        }
        assert forall|i: int, j: int| i < n implies is_first(head, i, j, key) == #[trigger] is_first(
            scans,
            i,
            j,
            key,
        ) by {
            if 0 <= i < n {
                assert(head[i] == scans[i]);
                assert(forall|k: int| 0 <= k < i ==> head[k] == #[trigger] scans[k]);
                assert(forall|k: int| 0 <= k < i ==> #[trigger] head[k] == scans[k]);
            }
        }
        if before.contains_key(key) {
            let (i, j) = choose|i: int, j: int|
                #[trigger] is_first(head, i, j, key) && before[key].size == head[i].1->0[j].size
                    && before[key].updated == head[i].1->0[j].last_modified;
            assert(is_first(scans, i, j, key));
        } else if let Some(objects) = scans.last().1 {
            assert forall|k: int| 0 <= k < n && (#[trigger] scans[k]).1 is Some implies !lists_object(
                scans[k].1->0,
                true,
                key,
            ) by {
                assert(head[k] == scans[k]);
                if lists_object(head[k].1->0, true, key) {
                    lemma_first_exists(head, k, key);
                }
            }
            if lists_object(objects, true, key) {
                let j = choose|j: int|
                    0 <= j < objects.len() && (#[trigger] objects[j]).location == key && (forall|k: int|
                        0 <= k < j ==> (#[trigger] objects[k]).location != key) && after[key].size
                        == objects[j].size && after[key].updated == objects[j].last_modified
                        && after[key].crc32c is None;
                assert(is_first(scans, n, j, key));
            }
        }
        if !after.contains_key(key) && !metadata::names_sidecar(key) {
            assert forall|i: int, j: int| !is_first(scans, i, j, key) by {
                if is_first(scans, i, j, key) {
                    if i < n {
                        assert(is_first(head, i, j, key));
                    } else {
                        assert(lists_object(scans.last().1->0, true, key)) by {
                            assert(scans.last().1->0[j].location == key);
                        }
                    }
                }
            }
        }
        if after.contains_key(key) {
            assert forall|i: int, j: int|
                0 <= i < scans.len() && scans[i].1 is Some && 0 <= j < scans[i].1->0.len() && (
                #[trigger] scans[i].1->0[j]).location == key implies after[key].meta_len
                >= scans[i].1->0[j].meta_len by {
                if i < n {
                    assert(head[i].1->0[j].location == key);
                    if !before.contains_key(key) {
                        assert(lists_object(head[i].1->0, true, key)) by {
                            assert(!metadata::names_sidecar(key));
                        }
                        lemma_first_exists(head, i, key);
                    }
                }
            }
        }
    } else {
        assert forall|i: int, j: int| !is_first(scans, i, j, key) by {}
    }
}

proof fn lemma_first_exists(scans: Scans, k: int, key: Seq<char>)
    requires
        0 <= k < scans.len(),
        scans[k].1 is Some,
        lists_object(scans[k].1->0, true, key),
    ensures
        exists|i: int, j: int| is_first(scans, i, j, key),
    decreases k,
{
    if exists|m: int|
        0 <= m < k && (#[trigger] scans[m]).1 is Some && lists_object(scans[m].1->0, true, key) {
        let m = choose|m: int|
            0 <= m < k && (#[trigger] scans[m]).1 is Some && lists_object(scans[m].1->0, true, key);
        lemma_first_exists(scans, m, key);
    } else {
        let objects = scans[k].1->0;
        let j = choose|j: int| 0 <= j < objects.len() && (#[trigger] objects[j]).location == key;
        let first = lemma_first_of(objects, j, key);
        assert(is_first(scans, k, first, key));
    }
}

proof fn lemma_first_of(objects: Seq<ScanSpec>, j: int, key: Seq<char>) -> (first: int)
    requires
        0 <= j < objects.len(),
        objects[j].location == key,
    ensures
        0 <= first < objects.len(),
        objects[first].location == key,
        forall|k: int| 0 <= k < first ==> (#[trigger] objects[k]).location != key,
    decreases j,
{
    if exists|k: int| 0 <= k < j && (#[trigger] objects[k]).location == key {
        let k = choose|k: int| 0 <= k < j && (#[trigger] objects[k]).location == key;
        lemma_first_of(objects, k, key)
    } else {
        j
    }
}

/// Each scan adds its own objects to the number that were seen, and one that failed adds
/// none.
pub proof fn every_object_that_was_seen_is_counted(
    scans: Scans,
    shard: usize,
    objects: Seq<ScanSpec>,
)
    ensures
        seen_count(scans.push((shard, Some(objects)))) == seen_count(scans) + objects.filter(
            |o: ScanSpec| !metadata::names_sidecar(o.location),
        ).len(),
        seen_count(scans.push((shard, None))) == seen_count(scans),
        seen_count(Seq::empty()) == 0,
{
    assert(scans.push((shard, Some(objects))).drop_last() =~= scans);
    assert(scans.push((shard, None)).drop_last() =~= scans);
    assert((|o: ScanSpec| !metadata::names_sidecar(o.location)) =~= is_own());
}

/// A scan that fails is reported with its error. A shard that was to be scanned again is
/// then listed nowhere. A shard that does not exist is not scanned, and nothing changes.
/// One that succeeds tells how many objects the shard lists: sidecars are no objects of
/// their own, where the shard lists them.
pub proof fn a_scan_tells_how_many_objects_it_lists(
    c: store::ClusterState,
    shard: usize,
    objects: Seq<ScanSpec>,
    error: Seq<char>,
    now: Timestamp,
    key: Seq<char>,
)
    requires
        objects.len() <= usize::MAX,
    ensures
        ({
            let good = rescanned(c, shard, Ok(objects), now);
            let bad = rescanned(c, shard, Err(error), now);
            let own = objects.filter(|o: ScanSpec| !metadata::names_sidecar(o.location)).len();
            let raw = c.refs matches Some(refs) && refs.raw(shard) is Some;
            &&& shard >= c.shards.len() ==> good == (
                c,
                Err::<usize, error::ErrorSpec>(error::ErrorSpec::NoShards),
            ) && bad == good
            &&& shard < c.shards.len() ==> {
                &&& good.1 matches Ok(n) && n == if raw {
                    objects.len()
                } else {
                    own
                }
                &&& bad.1 == Err::<usize, error::ErrorSpec>(error::ErrorSpec::ObjectStore(error))
                &&& !on_shard(bad.0.entries, shard, key)
                &&& forall|id: usize|
                    id != shard ==> (#[trigger] on_shard(bad.0.entries, id, key) <==> on_shard(
                        c.entries,
                        id,
                        key,
                    ))
                &&& good.0.shards == c.shards && bad.0.shards == c.shards
            }
        }),
{
    objects.lemma_filter_len(is_own());
    assert((|o: ScanSpec| !metadata::names_sidecar(o.location)) =~= is_own());
    lemma_purged(c.entries, shard, key);
}

proof fn lemma_purged(entries: catalog::Entries, shard: usize, key: Seq<char>)
    ensures
        ({
            let after = catalog::shard_purged(entries, shard);
            &&& !on_shard(after, shard, key)
            &&& forall|id: usize|
                id != shard ==> (#[trigger] on_shard(after, id, key) <==> on_shard(entries, id, key))
        }),
{
    catalog::a_purged_shard_is_listed_nowhere(entries, shard, key);
    let after = catalog::shard_purged(entries, shard);
    assert forall|id: usize| id != shard implies (#[trigger] on_shard(after, id, key) <==> on_shard(
        entries,
        id,
        key,
    )) by {
        if entries.contains_key(key) {
            ids::lemma_without(entries[key].shards, shard);
            if entries[key].shards.contains(id) {
                assert(after.contains_key(key));
            }
        }
    }
}

/// A shard that is invalidated is degraded and listed nowhere until it is scanned, and
/// what it was listed with is kept in mind. After the scan it is healthy, what the scan
/// shows is listed on it, and exactly what it was listed with before and is not any more
/// is missing. If the scan fails it stays degraded and everything is missing.
pub proof fn an_invalidated_shard_is_listed_by_its_scan(
    c: store::ClusterState,
    shard: usize,
    objects: Seq<ScanSpec>,
    error: Seq<char>,
    now: Timestamp,
    key: Seq<char>,
)
    requires
        shard < c.shards.len(),
        c.entries.dom().finite(),
        objects.len() <= usize::MAX,
    ensures
        ({
            let (begun, state) = invalidate_begun(c, shard);
            let s = state->Ok_0;
            let (good, g) = invalidate_finished(begun, s, Ok(objects), now);
            let (bad, b) = invalidate_finished(begun, s, Err(error), now);
            &&& state is Ok && s.shard == shard
            &&& begun.shards[shard as int].health == ShardHealth::Degraded
            &&& good.shards[shard as int].health == ShardHealth::Healthy
                && good.shards[shard as int].offline_since is None
            &&& bad.shards[shard as int].health == ShardHealth::Degraded
            &&& !on_shard(begun.entries, shard, key) && !on_shard(bad.entries, shard, key)
            &&& on_shard(good.entries, shard, key) <==> lists_object(
                objects,
                lists_sidecars(c, shard),
                key,
            )
            &&& s.keys.contains(key) <==> on_shard(c.entries, shard, key)
            &&& g.missing_keys.contains(key) <==> on_shard(c.entries, shard, key) && !on_shard(
                good.entries,
                shard,
                key,
            )
            &&& b.missing_keys.contains(key) <==> on_shard(c.entries, shard, key)
            &&& g.scan_ok && !b.scan_ok && g.shard_id == shard && b.shard_id == shard
            &&& g.entries_purged == s.keys.len() && b.entries_purged == s.keys.len()
            &&& b.entries_restored == 0
            &&& rescanned(begun, shard, Ok(objects), now).1 == Ok::<usize, error::ErrorSpec>(
                g.entries_restored,
            )
        }),
{
    let (begun, state) = invalidate_begun(c, shard);
    let s = state->Ok_0;
    let good = invalidate_finished(begun, s, Ok(objects), now).0;
    let bad = invalidate_finished(begun, s, Err(error), now).0;
    lemma_purged(c.entries, shard, key);
    lemma_purged(begun.entries, shard, key);
    a_rescan_lists_what_the_shard_holds(begun, shard, objects, now, shard, key);
    catalog::the_entries_of_a_shard_are_those_that_list_it(c.entries, shard);
    lemma_missing(good.entries, shard, s.keys, key);
    lemma_missing(bad.entries, shard, s.keys, key);
}

proof fn lemma_missing(
    entries: catalog::Entries,
    shard: usize,
    keys: Seq<Seq<char>>,
    key: Seq<char>,
)
    ensures
        missing(entries, shard, keys).contains(key) <==> keys.contains(key) && !on_shard(
            entries,
            shard,
            key,
        ),
{
    let pred = |k: Seq<char>| !on_shard(entries, shard, k);
    let f = keys.filter(pred);
    if f.contains(key) {
        keys.lemma_filter_pred(pred, f.index_of(key));
        keys.lemma_filter_contains_rev(pred, key);
    }
    if keys.contains(key) && pred(key) {
        keys.lemma_filter_contains(pred, keys.index_of(key));
    }
}

/// A shard that is attached is syncing, with nothing left of its absence, if what it
/// holds is trusted, and otherwise is invalidated. After a scan it is healthy and is
/// listed with what the scan shows; what a trusted shard was listed with before stays.
/// A trusted shard that could not be scanned is offline from then on.
pub proof fn an_attached_shard_is_healthy_after_its_scan(
    c: store::ClusterState,
    shard: usize,
    objects: Seq<ScanSpec>,
    error: Seq<char>,
    now: Timestamp,
    key: Seq<char>,
)
    requires
        shard < c.shards.len(),
    ensures
        ({
            let (trusted, t) = attach_begun(c, shard, true);
            let (checked, k) = attach_begun(c, shard, false);
            let i = trusted.shards[shard as int];
            let good = attach_finished(trusted, t->Ok_0, Ok(objects), now);
            let bad = attach_finished(trusted, t->Ok_0, Err(error), now);
            let fresh = attach_finished(checked, k->Ok_0, Ok(objects), now);
            &&& t is Ok && k is Ok
            &&& i.health == ShardHealth::Syncing && i.offline_since is None && i.detach_reason is None
                && !i.suppress_replication && i.free_space == u64::MAX
            &&& trusted.entries == c.entries
            &&& checked.shards[shard as int].health == ShardHealth::Degraded && !on_shard(
                checked.entries,
                shard,
                key,
            )
            &&& good.1 is Ok && good.0.shards[shard as int].health == ShardHealth::Healthy
            &&& on_shard(good.0.entries, shard, key) <==> on_shard(c.entries, shard, key)
                || lists_object(objects, lists_sidecars(c, shard), key)
            &&& bad.1 is Err && bad.0.shards[shard as int].health == ShardHealth::Offline
                && bad.0.shards[shard as int].offline_since == Some(now) && bad.0.entries
                == c.entries
            &&& fresh.1 is Ok && fresh.0.shards[shard as int].health == ShardHealth::Healthy
            &&& on_shard(fresh.0.entries, shard, key) <==> lists_object(
                objects,
                lists_sidecars(c, shard),
                key,
            )
        }),
        forall|id: usize, force: bool|
            id >= c.shards.len() ==> #[trigger] attach_begun(c, id, force) == (
                c,
                Err::<AttachState, error::ErrorSpec>(error::ErrorSpec::NoShards),
            ),
{
    let checked = attach_begun(c, shard, false).0;
    lemma_scan_added(c.entries, shard, objects, lists_sidecars(c, shard), now, shard, key);
    lemma_purged(c.entries, shard, key);
    a_rescan_lists_what_the_shard_holds(checked, shard, objects, now, shard, key);
}

/// A shard can be accessed exactly if it works and probing it succeeded.
pub proof fn a_shard_can_be_accessed_if_it_answers(
    shards: Seq<store::ShardInfo>,
    probes: Seq<bool>,
    i: int,
)
    requires
        probes.len() == shards.len(),
        0 <= i < shards.len(),
    ensures
        access(shards, probes).len() == shards.len(),
        access(shards, probes)[i].0 == shards[i].id,
        access(shards, probes)[i].1 <==> probes[i] && (shards[i].health == ShardHealth::Healthy
            || shards[i].health == ShardHealth::Degraded),
{
}

/// A copy that was deleted is no longer listed. The other copies stay listed, and the
/// entries of other objects and all else of the cluster stay as they were. A catalog that
/// has changed is marked.
pub proof fn a_copy_that_was_deleted_is_no_longer_listed(
    c: store::ClusterState,
    key: Seq<char>,
    shard: usize,
    id: usize,
    other: Seq<char>,
)
    requires
        id != shard,
        other != key,
    ensures
        ({
            let after = copy_removed(c, key, shard);
            &&& after.entries.contains_key(key) ==> !after.entries[key].shards.contains(shard)
            &&& c.entries.contains_key(key) && c.entries[key].shards.contains(id) ==> {
                &&& after.entries.contains_key(key)
                &&& after.entries[key].shards.contains(id)
            }
            &&& after.entries.contains_key(key) ==> {
                &&& c.entries.contains_key(key)
                &&& after.entries[key].shards.contains(id) ==> c.entries[key].shards.contains(id)
                &&& after.entries[key].size == c.entries[key].size
                &&& after.entries[key].crc32c == c.entries[key].crc32c
                &&& after.entries[key].updated == c.entries[key].updated
            }
            &&& after.entries.contains_key(other) == c.entries.contains_key(other)
            &&& after.entries[other] == c.entries[other]
            &&& after.entries != c.entries ==> after.dirty
            &&& c.dirty ==> after.dirty
            &&& after == (store::ClusterState { entries: after.entries, dirty: after.dirty, ..c })
        }),
{
    if c.entries.contains_key(key) {
        let list = c.entries[key].shards;
        ids::lemma_without(list, shard);
        if list.contains(id) {
            assert(ids::without(list, shard).contains(id));
        }
    }
}

} // verus!
