//! The state of a cluster: its shards, its catalog, its policies.
//!
//! Everything here is decided on plain values. Reading and writing the shards
//! themselves is left to the caller, who reports what happened.

use vstd::prelude::*;
use vstd::string::*;
use crate::catalog;
use crate::catalog::{Catalog, PlacementEntry};
use crate::ids::ShardId;
use crate::metadata;
use crate::metadata::RawRefRegistry;
use crate::persistence::{CatalogPersistence, Persistence};
use crate::replication;
use crate::replication::ReplicationPolicy;
use crate::time::Timestamp;

verus! {

/// Health of a shard.
#[derive(Debug, Clone, Copy, PartialEq, Eq, Structural)]
pub enum ShardHealth {
    Healthy,
    Degraded,
    Offline,
    /// Being synced again after coming back online.
    Syncing,
    /// Taken offline by an administrator: recovery does not bring it back by itself.
    Detached,
}

impl ShardHealth {
    /// Whether the shard takes writes: healthy or degraded.
    pub open spec fn writable(self) -> bool {
        self == ShardHealth::Healthy || self == ShardHealth::Degraded
    }

    /// Whether the shard serves no request: offline, detached, or syncing and not yet to
    /// be read.
    pub open spec fn unavailable(self) -> bool {
        self.away() || self == ShardHealth::Syncing
    }

    /// Whether the shard is away: offline or detached. One that is syncing is on its way
    /// back.
    pub open spec fn away(self) -> bool {
        self == ShardHealth::Offline || self == ShardHealth::Detached
    }

    /// Whether the shard can accept writes (healthy or degraded).
    pub fn is_writable(&self) -> (r: bool)
        ensures
            r == self.writable(),
    {
        match self {
            ShardHealth::Healthy | ShardHealth::Degraded => true,
            _ => false,
        }
    }

    /// Whether the shard cannot serve requests (offline, detached or syncing).
    pub fn is_unavailable(&self) -> (r: bool)
        ensures
            r == self.unavailable(),
    {
        match self {
            ShardHealth::Offline | ShardHealth::Detached | ShardHealth::Syncing => true,
            _ => false,
        }
    }

    /// Whether the shard is away (offline or detached).
    pub fn is_away(&self) -> (r: bool)
        ensures
            r == self.away(),
    {
        match self {
            ShardHealth::Offline | ShardHealth::Detached => true,
            _ => false,
        }
    }
}

/// Why a shard was taken offline or detached.
#[derive(Debug, Clone, Copy, PartialEq, Eq, Structural)]
pub enum DetachReason {
    /// An administrator took the shard offline.
    Manual,
    /// Too many health probes failed in a row.
    ProbeFailure,
    /// The device or file is gone.
    DeviceMissing,
    /// The shard was drained.
    Drain,
}

/// The order in which replicas are tried when reading.
#[derive(Debug, Clone, Copy, PartialEq, Eq, Structural)]
pub enum ReadPreference {
    /// Each read starts at the next replica.
    RoundRobin,
    /// Replicas in the order of their shard numbers.
    Ordered,
}

/// What the cluster keeps of a shard.
#[derive(Debug, Clone, Copy, PartialEq, Eq, Structural)]
pub struct ShardInfo {
    pub id: ShardId,
    pub health: ShardHealth,
    /// Free space in bytes, as last reported.
    pub free_space: u64,
    /// Since when the shard has been offline, degraded or detached.
    pub offline_since: Option<Timestamp>,
    /// Reads that found corrupt data.
    pub crc_error_count: u64,
    /// Why the shard was detached, if it was.
    pub detach_reason: Option<DetachReason>,
    /// Whether sweeps leave the objects of this shard alone while it is offline.
    pub suppress_replication: bool,
}

/// A multipart upload that has not ended.
#[derive(Debug)]
pub struct TrackedUpload {
    pub id: u64,
    pub location: String,
    /// Nanoseconds on the monotonic clock at which it began.
    pub created_at: u128,
    /// The shard that holds the parts.
    pub primary_shard_id: ShardId,
}

/// What is known of a multipart upload.
pub struct Upload {
    pub id: u64,
    pub location: Seq<char>,
    pub created_at: u128,
    pub primary_shard_id: usize,
}

impl View for TrackedUpload {
    type V = Upload;

    open spec fn view(&self) -> Upload {
        Upload {
            id: self.id,
            location: self.location@,
            created_at: self.created_at,
            primary_shard_id: self.primary_shard_id,
        }
    }
}

/// What is known of some multipart uploads.
pub open spec fn upload_views(v: Seq<TrackedUpload>) -> Seq<Upload> {
    Seq::new(v.len(), |i: int| v[i]@)
}

/// Default expiry of abandoned multipart uploads: 24 hours, in nanoseconds.
pub const DEFAULT_MULTIPART_EXPIRY: u128 = 86_400_000_000_000;

/// The state of a cluster.
pub struct ClusterState {
    pub shards: Seq<ShardInfo>,
    pub entries: catalog::Entries,
    pub dirty: bool,
    pub rf: nat,
    pub persistence: Persistence,
    pub read_counter: u64,
    pub read_preference: ReadPreference,
    pub read_only: bool,
    pub uploads: Seq<Upload>,
    pub next_upload_id: u64,
    pub multipart_expiry: u128,
    pub repairs_started: u64,
    pub repairs_done: u64,
    pub repairs_failed: u64,
    pub min_writes: nat,
    pub delete_requires_min_writes: bool,
    pub refs: Option<metadata::Registry>,
    pub vacuum_in_progress: bool,
}

/// What always holds of a cluster: shards are numbered by their positions, there is
/// at least one copy of each object and no more than there are shards, and a put
/// needs at least one write and no more than there are copies.
pub open spec fn valid(s: ClusterState) -> bool {
    &&& forall|i: int| 0 <= i < s.shards.len() ==> (#[trigger] s.shards[i]).id == i
    &&& 1 <= s.rf
    &&& s.shards.len() > 0 ==> s.rf <= s.shards.len()
    &&& 1 <= s.min_writes <= s.rf
}

/// A cluster that distributes objects over shards, with a number of copies of each.
pub struct ShardedObjectStore {
    shards: Vec<ShardInfo>,
    catalog: Catalog,
    replication: ReplicationPolicy,
    persistence: CatalogPersistence,
    read_counter: u64,
    read_preference: ReadPreference,
    read_only: bool,
    uploads: Vec<TrackedUpload>,
    next_upload_id: u64,
    multipart_expiry: u128,
    repairs_started: u64,
    repairs_done: u64,
    repairs_failed: u64,
    min_writes: usize,
    delete_requires_min_writes: bool,
    raw_refs: Option<RawRefRegistry>,
    vacuum_in_progress: bool,
}

impl View for ShardedObjectStore {
    type V = ClusterState;

    closed spec fn view(&self) -> ClusterState {
        ClusterState {
            shards: self.shards@,
            entries: self.catalog.entries(),
            dirty: self.catalog.dirty(),
            rf: self.replication.spec_factor(),
            persistence: self.persistence@,
            read_counter: self.read_counter,
            read_preference: self.read_preference,
            read_only: self.read_only,
            uploads: upload_views(self.uploads@),
            next_upload_id: self.next_upload_id,
            multipart_expiry: self.multipart_expiry,
            repairs_started: self.repairs_started,
            repairs_done: self.repairs_done,
            repairs_failed: self.repairs_failed,
            min_writes: self.min_writes as nat,
            delete_requires_min_writes: self.delete_requires_min_writes,
            refs: match self.raw_refs {
                Some(r) => Some(r@),
                None => None,
            },
            vacuum_in_progress: self.vacuum_in_progress,
        }
    }
}

/// A shard that is there from the start. How much space it has is not known yet.
pub open spec fn fresh_shard(id: usize) -> ShardInfo {
    ShardInfo {
        id,
        health: ShardHealth::Healthy,
        free_space: u64::MAX,
        offline_since: None,
        crc_error_count: 0,
        detach_reason: None,
        suppress_replication: false,
    }
}

/// A shard that is missing at the start.
pub open spec fn missing_shard(id: usize, now: Timestamp) -> ShardInfo {
    ShardInfo {
        id,
        health: ShardHealth::Offline,
        free_space: 0,
        offline_since: Some(now),
        crc_error_count: 0,
        detach_reason: None,
        suppress_replication: false,
    }
}

/// The writes that a put needs unless another number is set.
pub open spec fn default_min_writes(replication_factor: nat, shard_count: nat) -> nat {
    let rf = replication::clamp_factor(replication_factor, shard_count);
    if rf <= 1 {
        1
    } else {
        (rf - 1) as nat
    }
}

/// A cluster as it starts, with the given shards.
pub open spec fn fresh_cluster(shards: Seq<ShardInfo>, replication_factor: nat) -> ClusterState {
    ClusterState {
        shards,
        entries: catalog::Entries::empty(),
        dirty: false,
        rf: replication::clamp_factor(replication_factor, shards.len()),
        persistence: Persistence::Memory,
        read_counter: 0,
        read_preference: ReadPreference::RoundRobin,
        read_only: false,
        uploads: Seq::empty(),
        next_upload_id: 1,
        multipart_expiry: DEFAULT_MULTIPART_EXPIRY,
        repairs_started: 0,
        repairs_done: 0,
        repairs_failed: 0,
        min_writes: default_min_writes(replication_factor, shards.len()),
        delete_requires_min_writes: false,
        refs: None,
        vacuum_in_progress: false,
    }
}

impl ShardedObjectStore {
    fn with_shards(shards: Vec<ShardInfo>, replication_factor: usize) -> (s: Self)
        ensures
            s@ == fresh_cluster(shards@, replication_factor as nat),
    {
        let replication = ReplicationPolicy::new(replication_factor, shards.len());
        let rf: usize = replication.factor();
        let s = ShardedObjectStore {
            shards,
            catalog: Catalog::new(),
            replication,
            persistence: CatalogPersistence::Memory,
            read_counter: 0,
            read_preference: ReadPreference::RoundRobin,
            read_only: false,
            uploads: Vec::new(),
            next_upload_id: 1,
            multipart_expiry: DEFAULT_MULTIPART_EXPIRY,
            repairs_started: 0,
            repairs_done: 0,
            repairs_failed: 0,
            min_writes: if rf <= 1 {
                1
            } else {
                rf - 1
            },
            delete_requires_min_writes: false,
            raw_refs: None,
            vacuum_in_progress: false,
        };
        assert(s@.uploads =~= Seq::<Upload>::empty());
        s
    }

    /// A cluster of `shard_count` shards, all of them there. `replication_factor`
    /// copies are kept of each object, as far as there are shards.
    pub fn new(shard_count: usize, replication_factor: usize) -> (s: Self)
        ensures
            s@ == fresh_cluster(
                Seq::new(shard_count as nat, |i: int| fresh_shard(i as usize)),
                replication_factor as nat,
            ),
            valid(s@),
    {
        let mut shards: Vec<ShardInfo> = Vec::new();
        let mut id: usize = 0;
        while id < shard_count
            invariant
                id <= shard_count,
                shards@ == Seq::new(id as nat, |i: int| fresh_shard(i as usize)),
            decreases shard_count - id,
        {
            shards.push(
                ShardInfo {
                    id,
                    health: ShardHealth::Healthy,
                    free_space: u64::MAX,
                    offline_since: None,
                    crc_error_count: 0,
                    detach_reason: None,
                    suppress_replication: false,
                },
            );
            assert(shards@ =~= Seq::new((id + 1) as nat, |i: int| fresh_shard(i as usize)));
            id = id + 1;
        }
        Self::with_shards(shards, replication_factor)
    }

    /// A cluster some of whose shards may be missing. A missing shard keeps its
    /// place, so that placement stays stable, and can be attached later.
    pub fn new_with_offline(present: &[bool], replication_factor: usize, now: Timestamp) -> (s: Self)
        ensures
            s@ == fresh_cluster(
                Seq::new(
                    present@.len(),
                    |i: int|
                        if present@[i] {
                            fresh_shard(i as usize)
                        } else {
                            missing_shard(i as usize, now)
                        },
                ),
                replication_factor as nat,
            ),
            valid(s@),
    {
        let mut shards: Vec<ShardInfo> = Vec::new();
        let mut id: usize = 0;
        let ghost want = |i: int|
            if present@[i] {
                fresh_shard(i as usize)
            } else {
                missing_shard(i as usize, now)
            };
        while id < present.len()
            invariant
                id <= present.len(),
                want == (|i: int|
                    if present@[i] {
                        fresh_shard(i as usize)
                    } else {
                        missing_shard(i as usize, now)
                    }),
                shards@ == Seq::new(id as nat, want),
            decreases present.len() - id,
        {
            let there = present[id];
            shards.push(
                ShardInfo {
                    id,
                    health: if there {
                        ShardHealth::Healthy
                    } else {
                        ShardHealth::Offline
                    },
                    free_space: if there {
                        u64::MAX
                    } else {
                        0
                    },
                    offline_since: if there {
                        None
                    } else {
                        Some(now)
                    },
                    crc_error_count: 0,
                    detach_reason: None,
                    suppress_replication: false,
                },
            );
            assert(shards@ =~= Seq::new((id + 1) as nat, want));
            id = id + 1;
        }
        Self::with_shards(shards, replication_factor)
    }
}

fn copy_uploads(uploads: &Vec<TrackedUpload>) -> (r: Vec<TrackedUpload>)
    ensures
        upload_views(r@) == upload_views(uploads@),
{
    let mut r: Vec<TrackedUpload> = Vec::new();
    let mut i: usize = 0;
    while i < uploads.len()
        invariant
            i <= uploads.len(),
            upload_views(r@) == upload_views(uploads@).take(i as int),
        decreases uploads.len() - i,
    {
        let u = &uploads[i];
        let ghost before = r@;
        r.push(
            TrackedUpload {
                id: u.id,
                location: u.location.clone(),
                created_at: u.created_at,
                primary_shard_id: u.primary_shard_id,
            },
        );
        assert(upload_views(r@) =~= upload_views(before).push(uploads@[i as int]@));
        assert(upload_views(r@) =~= upload_views(uploads@).take(i + 1));
        i = i + 1;
    }
    assert(upload_views(uploads@).take(i as int) =~= upload_views(uploads@));
    r
}

impl ShardedObjectStore {
    /// Another cluster in the same state, on which to try what an operation would do.
    pub(crate) fn copy(&self) -> (r: Self)
        ensures
            r@ == self@,
    {
        let shards = self.shards.clone();
        assert(shards@ =~= self.shards@);
        let rf: usize = self.replication.factor();
        ShardedObjectStore {
            shards,
            catalog: self.catalog.copy(),
            replication: ReplicationPolicy::new(rf, rf),
            persistence: self.persistence.clone(),
            read_counter: self.read_counter,
            read_preference: self.read_preference,
            read_only: self.read_only,
            uploads: copy_uploads(&self.uploads),
            next_upload_id: self.next_upload_id,
            multipart_expiry: self.multipart_expiry,
            repairs_started: self.repairs_started,
            repairs_done: self.repairs_done,
            repairs_failed: self.repairs_failed,
            min_writes: self.min_writes,
            delete_requires_min_writes: self.delete_requires_min_writes,
            raw_refs: match &self.raw_refs {
                Some(refs) => Some(refs.copy()),
                None => None,
            },
            vacuum_in_progress: self.vacuum_in_progress,
        }
    }
}

// -- Shards -----------------------------------------------------------------

/// A shard whose health is set. The time since when it has been offline, degraded
/// or detached starts when it enters these states and is forgotten, with the reason,
/// when it is healthy again.
pub open spec fn with_health(s: ShardInfo, health: ShardHealth, now: Timestamp) -> ShardInfo {
    if health.away() || health == ShardHealth::Degraded {
        ShardInfo {
            health,
            offline_since: if s.health.away() || s.health == ShardHealth::Degraded {
                s.offline_since
            } else {
                Some(now)
            },
            ..s
        }
    } else if health == ShardHealth::Healthy {
        ShardInfo {
            health,
            offline_since: None,
            detach_reason: None,
            suppress_replication: false,
            ..s
        }
    } else {
        ShardInfo { health, ..s }
    }
}

/// A cluster one of whose shards has changed.
pub open spec fn with_shard(c: ClusterState, id: usize, s: ShardInfo) -> ClusterState {
    ClusterState { shards: c.shards.update(id as int, s), ..c }
}

/// A cluster after the health of a shard was set; a shard that does not exist
/// changes nothing.
pub open spec fn health_set(
    c: ClusterState,
    id: usize,
    health: ShardHealth,
    now: Timestamp,
) -> ClusterState {
    if id < c.shards.len() {
        with_shard(c, id, with_health(c.shards[id as int], health, now))
    } else {
        c
    }
}

/// The health of a shard, if it exists.
pub open spec fn health_of(c: ClusterState, id: usize) -> Option<ShardHealth> {
    if id < c.shards.len() {
        Some(c.shards[id as int].health)
    } else {
        None
    }
}

/// A shard that was detached: it holds nothing and is offline.
pub open spec fn detached(s: ShardInfo, now: Timestamp) -> ShardInfo {
    ShardInfo {
        health: ShardHealth::Offline,
        free_space: 0,
        offline_since: if s.health.away() {
            s.offline_since
        } else {
            Some(now)
        },
        ..s
    }
}

/// A shard that is held offline.
pub open spec fn held(
    s: ShardInfo,
    suppress_replication: bool,
    reason: DetachReason,
    now: Timestamp,
) -> ShardInfo {
    ShardInfo {
        health: ShardHealth::Detached,
        detach_reason: Some(reason),
        suppress_replication,
        ..detached(s, now)
    }
}

/// A shard that is no longer held offline.
pub open spec fn released(s: ShardInfo) -> ShardInfo {
    ShardInfo {
        health: ShardHealth::Offline,
        detach_reason: None,
        suppress_replication: false,
        ..s
    }
}

impl ShardedObjectStore {
    /// The number of shards.
    pub fn shard_count(&self) -> (n: usize)
        ensures
            n == self@.shards.len(),
    {
        self.shards.len()
    }

    /// What is known of a shard.
    pub fn shard_info(&self, id: ShardId) -> (r: Option<ShardInfo>)
        ensures
            r == (if id < self@.shards.len() {
                Some(self@.shards[id as int])
            } else {
                None
            }),
    {
        if id < self.shards.len() {
            Some(self.shards[id])
        } else {
            None
        }
    }

    /// The health of a shard.
    pub fn shard_health(&self, id: ShardId) -> (r: Option<ShardHealth>)
        ensures
            r == health_of(self@, id),
    {
        if id < self.shards.len() {
            Some(self.shards[id].health)
        } else {
            None
        }
    }

    /// Since when a shard has been offline, if it has.
    pub fn shard_offline_since(&self, id: ShardId) -> (r: Option<Timestamp>)
        ensures
            r == (if id < self@.shards.len() {
                self@.shards[id as int].offline_since
            } else {
                None
            }),
    {
        if id < self.shards.len() {
            self.shards[id].offline_since
        } else {
            None
        }
    }

    /// The free space of a shard, in bytes.
    pub fn shard_free_space(&self, id: ShardId) -> (r: Option<u64>)
        ensures
            r == (if id < self@.shards.len() {
                Some(self@.shards[id as int].free_space)
            } else {
                None
            }),
    {
        if id < self.shards.len() {
            Some(self.shards[id].free_space)
        } else {
            None
        }
    }

    /// How many reads of a shard found corrupt data.
    pub fn shard_crc_error_count(&self, id: ShardId) -> (r: u64)
        ensures
            r == (if id < self@.shards.len() {
                self@.shards[id as int].crc_error_count
            } else {
                0
            }),
    {
        if id < self.shards.len() {
            self.shards[id].crc_error_count
        } else {
            0
        }
    }

    /// Why a shard was detached, if it was.
    pub fn shard_detach_reason(&self, id: ShardId) -> (r: Option<DetachReason>)
        ensures
            r == (if id < self@.shards.len() {
                self@.shards[id as int].detach_reason
            } else {
                None
            }),
    {
        if id < self.shards.len() {
            self.shards[id].detach_reason
        } else {
            None
        }
    }

    /// Whether sweeps leave the objects of a shard alone while it is offline.
    pub fn shard_suppress_replication(&self, id: ShardId) -> (r: bool)
        ensures
            r == (id < self@.shards.len() && self@.shards[id as int].suppress_replication),
    {
        id < self.shards.len() && self.shards[id].suppress_replication
    }

    /// Replaces what is known of a shard.
    pub(crate) fn store_shard(&mut self, id: ShardId, s: ShardInfo)
        requires
            id < old(self)@.shards.len(),
        ensures
            final(self)@ == with_shard(old(self)@, id, s),
    {
        self.shards.set(id, s);
    }

    /// Updates the free space of a shard.
    pub fn set_shard_free_space(&mut self, id: ShardId, free: u64)
        ensures
            final(self)@ == (if id < old(self)@.shards.len() {
                with_shard(
                    old(self)@,
                    id,
                    ShardInfo { free_space: free, ..old(self)@.shards[id as int] },
                )
            } else {
                old(self)@
            }),
            valid(old(self)@) ==> valid(final(self)@),
    {
        if id < self.shards.len() {
            let s = self.shards[id];
            self.store_shard(id, ShardInfo { free_space: free, ..s });
        }
    }

    /// Records why a shard was detached.
    pub fn set_detach_reason(&mut self, id: ShardId, reason: DetachReason)
        ensures
            final(self)@ == (if id < old(self)@.shards.len() {
                with_shard(
                    old(self)@,
                    id,
                    ShardInfo { detach_reason: Some(reason), ..old(self)@.shards[id as int] },
                )
            } else {
                old(self)@
            }),
            valid(old(self)@) ==> valid(final(self)@),
    {
        if id < self.shards.len() {
            let s = self.shards[id];
            self.store_shard(id, ShardInfo { detach_reason: Some(reason), ..s });
        }
    }

    /// Sets the health of a shard, as of now. The health before, if the shard exists.
    pub fn set_shard_health(&mut self, id: ShardId, health: ShardHealth) -> (r: Option<ShardHealth>)
        ensures
            r == health_of(old(self)@, id),
            exists|now: Timestamp|
                final(self)@ == #[trigger] health_set(old(self)@, id, health, now),
            valid(old(self)@) ==> valid(final(self)@),
    {
        let now = Timestamp::now();
        self.set_shard_health_at(id, health, now)
    }

    /// Sets the health of a shard, as of a given time. The health before, if the
    /// shard exists.
    pub fn set_shard_health_at(&mut self, id: ShardId, health: ShardHealth, now: Timestamp) -> (r:
        Option<ShardHealth>)
        ensures
            r == health_of(old(self)@, id),
            final(self)@ == health_set(old(self)@, id, health, now),
            valid(old(self)@) ==> valid(final(self)@),
    {
        if id >= self.shards.len() {
            return None;
        }
        let s = self.shards[id];
        let prev = s.health;
        let next = if health.is_away() || health == ShardHealth::Degraded {
            if prev.is_away() || prev == ShardHealth::Degraded {
                ShardInfo { health, ..s }
            } else {
                ShardInfo { health, offline_since: Some(now), ..s }
            }
        } else if health == ShardHealth::Healthy {
            ShardInfo {
                health,
                offline_since: None,
                detach_reason: None,
                suppress_replication: false,
                ..s
            }
        } else {
            ShardInfo { health, ..s }
        };
        self.store_shard(id, next);
        Some(prev)
    }

    /// Detaches a shard, as of now: it is offline. Catalog entries that refer to it
    /// stay. The health before, if the shard exists.
    pub fn detach_shard(&mut self, id: ShardId) -> (r: Option<ShardHealth>)
        ensures
            r == health_of(old(self)@, id),
            exists|now: Timestamp|
                final(self)@ == (if id < old(self)@.shards.len() {
                    with_shard(old(self)@, id, #[trigger] detached(old(self)@.shards[id as int], now))
                } else {
                    old(self)@
                }),
            valid(old(self)@) ==> valid(final(self)@),
    {
        let now = Timestamp::now();
        let r = self.detach_shard_at(id, now);
        assert(final(self)@ == (if id < old(self)@.shards.len() {
            with_shard(old(self)@, id, detached(old(self)@.shards[id as int], now))
        } else {
            old(self)@
        }));
        r
    }

    /// Detaches a shard, as of a given time.
    pub fn detach_shard_at(&mut self, id: ShardId, now: Timestamp) -> (r: Option<ShardHealth>)
        ensures
            r == health_of(old(self)@, id),
            final(self)@ == (if id < old(self)@.shards.len() {
                with_shard(old(self)@, id, detached(old(self)@.shards[id as int], now))
            } else {
                old(self)@
            }),
            valid(old(self)@) ==> valid(final(self)@),
    {
        if id >= self.shards.len() {
            return None;
        }
        let s = self.shards[id];
        let next = ShardInfo {
            health: ShardHealth::Offline,
            free_space: 0,
            offline_since: if s.health.is_away() {
                s.offline_since
            } else {
                Some(now)
            },
            ..s
        };
        self.store_shard(id, next);
        Some(s.health)
    }

    /// Takes a shard offline by hand, as of now, so that recovery does not bring it
    /// back by itself. With `suppress_replication`, sweeps do not copy its objects to
    /// other shards meanwhile. The health before, if the shard exists.
    pub fn hold_offline(
        &mut self,
        id: ShardId,
        suppress_replication: bool,
        reason: DetachReason,
    ) -> (r: Option<ShardHealth>)
        ensures
            r == health_of(old(self)@, id),
            exists|now: Timestamp|
                final(self)@ == (if id < old(self)@.shards.len() {
                    with_shard(
                        old(self)@,
                        id,
                        #[trigger] held(
                            old(self)@.shards[id as int],
                            suppress_replication,
                            reason,
                            now,
                        ),
                    )
                } else {
                    old(self)@
                }),
            valid(old(self)@) ==> valid(final(self)@),
    {
        let now = Timestamp::now();
        let r = self.hold_offline_at(id, suppress_replication, reason, now);
        assert(final(self)@ == (if id < old(self)@.shards.len() {
            with_shard(
                old(self)@,
                id,
                held(old(self)@.shards[id as int], suppress_replication, reason, now),
            )
        } else {
            old(self)@
        }));
        r
    }

    /// Takes a shard offline by hand, as of a given time.
    pub fn hold_offline_at(
        &mut self,
        id: ShardId,
        suppress_replication: bool,
        reason: DetachReason,
        now: Timestamp,
    ) -> (r: Option<ShardHealth>)
        ensures
            r == health_of(old(self)@, id),
            final(self)@ == (if id < old(self)@.shards.len() {
                with_shard(
                    old(self)@,
                    id,
                    held(old(self)@.shards[id as int], suppress_replication, reason, now),
                )
            } else {
                old(self)@
            }),
            valid(old(self)@) ==> valid(final(self)@),
    {
        if id >= self.shards.len() {
            return None;
        }
        let s = self.shards[id];
        let next = ShardInfo {
            health: ShardHealth::Detached,
            free_space: 0,
            offline_since: if s.health.is_away() {
                s.offline_since
            } else {
                Some(now)
            },
            detach_reason: Some(reason),
            suppress_replication,
            ..s
        };
        self.store_shard(id, next);
        Some(s.health)
    }

    /// Makes a shard that is held offline eligible for attaching again; whether it
    /// was held.
    pub fn release_hold(&mut self, id: ShardId) -> (r: bool)
        ensures
            r == (health_of(old(self)@, id) == Some(ShardHealth::Detached)),
            final(self)@ == (if r {
                with_shard(old(self)@, id, released(old(self)@.shards[id as int]))
            } else {
                old(self)@
            }),
            valid(old(self)@) ==> valid(final(self)@),
    {
        if id < self.shards.len() && self.shards[id].health == ShardHealth::Detached {
            let s = self.shards[id];
            let next = ShardInfo {
                health: ShardHealth::Offline,
                detach_reason: None,
                suppress_replication: false,
                ..s
            };
            self.store_shard(id, next);
            true
        } else {
            false
        }
    }
}

// -- Access -----------------------------------------------------------------

impl ShardedObjectStore {
    /// What is known of the shards.
    pub fn shards(&self) -> (r: &Vec<ShardInfo>)
        ensures
            r@ == self@.shards,
    {
        &self.shards
    }

    /// The number of copies of each object.
    pub fn replication_factor(&self) -> (rf: usize)
        ensures
            rf == self@.rf,
            rf >= 1,
    {
        self.replication.factor()
    }

    /// The catalog.
    pub fn catalog(&self) -> (r: &Catalog)
        ensures
            r.entries() == self@.entries,
            r.dirty() == self@.dirty,
    {
        &self.catalog
    }

    /// The catalog, to change it.
    pub fn catalog_mut(&mut self) -> (r: &mut Catalog)
        ensures
            r.entries() == old(self)@.entries,
            r.dirty() == old(self)@.dirty,
            final(self)@ == (ClusterState {
                entries: final(r).entries(),
                dirty: final(r).dirty(),
                ..old(self)@
            }),
            valid(old(self)@) ==> valid(final(self)@),
    {
        &mut self.catalog
    }

    /// The placement of an object, if it has one.
    pub fn placement(&self, key: &str) -> (r: Option<PlacementEntry>)
        ensures
            match r {
                Some(e) => self@.entries.contains_key(key@) && e@ == self@.entries[key@],
                None => !self@.entries.contains_key(key@),
            },
    {
        self.catalog.get(key)
    }

    /// Whether the catalog has unsaved changes.
    pub fn catalog_is_dirty(&self) -> (r: bool)
        ensures
            r == self@.dirty,
    {
        self.catalog.is_dirty()
    }

    /// The order in which replicas are read.
    pub fn read_preference(&self) -> (r: ReadPreference)
        ensures
            r == self@.read_preference,
    {
        self.read_preference
    }

    /// Sets the order in which replicas are read.
    pub fn set_read_preference(&mut self, pref: ReadPreference)
        ensures
            final(self)@ == (ClusterState { read_preference: pref, ..old(self)@ }),
            valid(old(self)@) ==> valid(final(self)@),
    {
        self.read_preference = pref;
    }

    /// How many read orders were handed out, modulo the range of the counter.
    pub fn read_counter(&self) -> (r: u64)
        ensures
            r == self@.read_counter,
    {
        self.read_counter
    }

    /// Moves the start of the next read on.
    pub fn advance_read_counter(&mut self)
        ensures
            final(self)@ == (ClusterState {
                read_counter: ((old(self)@.read_counter + 1) % 0x1_0000_0000_0000_0000) as u64,
                ..old(self)@
            }),
            valid(old(self)@) ==> valid(final(self)@),
    {
        self.read_counter = self.read_counter.wrapping_add(1);
    }

    /// How the catalog is persisted.
    pub fn persistence(&self) -> (p: CatalogPersistence)
        ensures
            p@ == self@.persistence,
    {
        self.persistence.clone()
    }

    /// Sets how the catalog is persisted.
    pub fn set_persistence(&mut self, p: CatalogPersistence)
        ensures
            final(self)@ == (ClusterState { persistence: p@, ..old(self)@ }),
            valid(old(self)@) ==> valid(final(self)@),
    {
        self.persistence = p;
    }

    /// This cluster with the given persistence.
    pub fn with_persistence(self, p: CatalogPersistence) -> (s: Self)
        ensures
            s@ == (ClusterState { persistence: p@, ..self@ }),
            valid(self@) ==> valid(s@),
    {
        let mut s = self;
        s.persistence = p;
        s
    }

    /// Whether writes are refused.
    pub fn is_read_only(&self) -> (r: bool)
        ensures
            r == self@.read_only,
    {
        self.read_only
    }

    /// This cluster, with writes refused or not.
    pub fn with_read_only(self, read_only: bool) -> (s: Self)
        ensures
            s@ == (ClusterState { read_only, ..self@ }),
            valid(self@) ==> valid(s@),
    {
        let mut s = self;
        s.read_only = read_only;
        s
    }

    /// This cluster with another expiry of multipart uploads, in nanoseconds.
    pub fn with_multipart_expiry(self, expiry: u128) -> (s: Self)
        ensures
            s@ == (ClusterState { multipart_expiry: expiry, ..self@ }),
            valid(self@) ==> valid(s@),
    {
        let mut s = self;
        s.multipart_expiry = expiry;
        s
    }

    /// The expiry of multipart uploads, in nanoseconds.
    pub fn multipart_expiry(&self) -> (r: u128)
        ensures
            r == self@.multipart_expiry,
    {
        self.multipart_expiry
    }

    /// This cluster with another number of writes that a put needs, brought into
    /// `1..=replication_factor`.
    pub fn with_min_writes(self, min_writes: usize) -> (s: Self)
        ensures
            s@ == (ClusterState {
                min_writes: replication::clamp_factor(min_writes as nat, self@.rf),
                ..self@
            }),
            valid(self@) ==> valid(s@),
    {
        let mut s = self;
        let rf: usize = s.replication.factor();
        s.min_writes = if min_writes < 1 {
            1
        } else if min_writes < rf {
            min_writes
        } else {
            rf
        };
        s
    }

    /// The writes that a put needs.
    pub fn min_writes(&self) -> (r: usize)
        ensures
            r == self@.min_writes,
    {
        self.min_writes
    }

    /// This cluster, with deletes needing `min_writes` successes or not.
    pub fn with_delete_requires_min_writes(self, enabled: bool) -> (s: Self)
        ensures
            s@ == (ClusterState { delete_requires_min_writes: enabled, ..self@ }),
            valid(self@) ==> valid(s@),
    {
        let mut s = self;
        s.delete_requires_min_writes = enabled;
        s
    }

    /// Whether deletes need `min_writes` successes.
    pub fn delete_requires_min_writes(&self) -> (r: bool)
        ensures
            r == self@.delete_requires_min_writes,
    {
        self.delete_requires_min_writes
    }

    /// Sets what is known of how shards keep metadata.
    pub fn set_raw_refs(&mut self, refs: RawRefRegistry)
        ensures
            final(self)@ == (ClusterState { refs: Some(refs@), ..old(self)@ }),
            valid(old(self)@) ==> valid(final(self)@),
    {
        self.raw_refs = Some(refs);
    }

    /// What is known of how shards keep metadata.
    pub fn raw_refs(&self) -> (r: Option<&RawRefRegistry>)
        ensures
            match r {
                Some(refs) => self@.refs == Some(refs@),
                None => self@.refs is None,
            },
    {
        match &self.raw_refs {
            Some(r) => Some(r),
            None => None,
        }
    }

    /// Replaces the catalog by one that was loaded.
    pub fn load_catalog(&mut self, loaded: Catalog)
        ensures
            final(self)@ == (ClusterState {
                entries: loaded.entries(),
                dirty: false,
                ..old(self)@
            }),
            valid(old(self)@) ==> valid(final(self)@),
    {
        self.catalog.load_into(loaded);
    }

    /// Records the outcome of saving the catalog: if it was saved, nothing is
    /// unsaved any more.
    pub fn save_catalog(&mut self, saved: bool)
        ensures
            final(self)@ == (ClusterState { dirty: old(self)@.dirty && !saved, ..old(self)@ }),
            valid(old(self)@) ==> valid(final(self)@),
    {
        if saved {
            self.catalog.clear_dirty();
        }
    }

    /// Records how writing the catalog went, which is tried only if the catalog has
    /// changed. Says whether it was written, or fails if that failed.
    pub fn save_catalog_if_dirty(&mut self, saved: bool) -> (r: Result<bool, ()>)
        ensures
            final(self)@ == (ClusterState { dirty: old(self)@.dirty && !saved, ..old(self)@ }),
            r == (if !old(self)@.dirty {
                Ok::<bool, ()>(false)
            } else if saved {
                Ok::<bool, ()>(true)
            } else {
                Err::<bool, ()>(())
            }),
    {
        if !self.catalog_is_dirty() {
            return Ok(false);
        }
        self.save_catalog(saved);
        if saved {
            Ok(true)
        } else {
            Err(())
        }
    }

    /// Read repairs that were begun.
    pub fn read_repair_count(&self) -> (r: u64)
        ensures
            r == self@.repairs_started,
    {
        self.repairs_started
    }

    /// Read repairs that succeeded.
    pub fn read_repair_success(&self) -> (r: u64)
        ensures
            r == self@.repairs_done,
    {
        self.repairs_done
    }

    /// Read repairs that failed.
    pub fn read_repair_failed(&self) -> (r: u64)
        ensures
            r == self@.repairs_failed,
    {
        self.repairs_failed
    }

    /// Counts a read repair that is begun.
    pub fn count_repair_started(&mut self)
        ensures
            final(self)@ == (ClusterState {
                repairs_started: ((old(self)@.repairs_started + 1)
                    % 0x1_0000_0000_0000_0000) as u64,
                ..old(self)@
            }),
            valid(old(self)@) ==> valid(final(self)@),
    {
        self.repairs_started = self.repairs_started.wrapping_add(1);
    }

    /// Counts a read repair that ended.
    pub fn count_repair_ended(&mut self, success: bool)
        ensures
            final(self)@ == (if success {
                ClusterState {
                    repairs_done: ((old(self)@.repairs_done + 1) % 0x1_0000_0000_0000_0000) as u64,
                    ..old(self)@
                }
            } else {
                ClusterState {
                    repairs_failed: ((old(self)@.repairs_failed + 1)
                        % 0x1_0000_0000_0000_0000) as u64,
                    ..old(self)@
                }
            }),
            valid(old(self)@) ==> valid(final(self)@),
    {
        if success {
            self.repairs_done = self.repairs_done.wrapping_add(1);
        } else {
            self.repairs_failed = self.repairs_failed.wrapping_add(1);
        }
    }

    /// Begins a vacuum, unless one is running; whether it did.
    pub fn begin_vacuum(&mut self) -> (began: bool)
        ensures
            began == !old(self)@.vacuum_in_progress,
            final(self)@ == (ClusterState { vacuum_in_progress: true, ..old(self)@ }),
            valid(old(self)@) ==> valid(final(self)@),
    {
        let began = !self.vacuum_in_progress;
        self.vacuum_in_progress = true;
        began
    }

    /// Ends a vacuum.
    pub fn end_vacuum(&mut self)
        ensures
            final(self)@ == (ClusterState { vacuum_in_progress: false, ..old(self)@ }),
            valid(old(self)@) ==> valid(final(self)@),
    {
        self.vacuum_in_progress = false;
    }

    /// The multipart uploads that have not ended.
    pub fn uploads(&self) -> (r: &Vec<TrackedUpload>)
        ensures
            upload_views(r@) == self@.uploads,
    {
        &self.uploads
    }

    /// The multipart uploads that have not ended, to change them.
    pub(crate) fn uploads_mut(&mut self) -> (r: &mut Vec<TrackedUpload>)
        ensures
            upload_views((*r)@) == old(self)@.uploads,
            final(self)@ == (ClusterState {
                uploads: upload_views(final(r)@),
                ..old(self)@
            }),
    {
        &mut self.uploads
    }

    /// Takes the next number of a multipart upload.
    pub(crate) fn take_upload_id(&mut self) -> (id: u64)
        ensures
            id == old(self)@.next_upload_id,
            final(self)@ == (ClusterState {
                next_upload_id: ((old(self)@.next_upload_id + 1)
                    % 0x1_0000_0000_0000_0000) as u64,
                ..old(self)@
            }),
    {
        let id: u64 = self.next_upload_id;
        self.next_upload_id = id.wrapping_add(1);
        id
    }
}

// -- Laws -------------------------------------------------------------------

/// Taking a shard away, by detaching it or by holding it offline, changes no entry of the
/// catalog and no other shard, and the shard takes no writes from then on.
pub proof fn taking_a_shard_away_keeps_the_catalog(
    c: ClusterState,
    id: usize,
    suppress_replication: bool,
    reason: DetachReason,
    now: Timestamp,
)
    requires
        id < c.shards.len(),
    ensures
        ({
            let away = with_shard(c, id, detached(c.shards[id as int], now));
            let kept = with_shard(
                c,
                id,
                held(c.shards[id as int], suppress_replication, reason, now),
            );
            &&& away.entries == c.entries && kept.entries == c.entries
            &&& !away.shards[id as int].health.writable() && !kept.shards[id as int].health.writable()
            &&& forall|i: int|
                0 <= i < c.shards.len() && i != id ==> #[trigger] away.shards[i] == c.shards[i]
                    && kept.shards[i] == c.shards[i]
        }),
{
}

/// Releasing a shard that is held offline leaves it as if it had been detached, without
/// a reason and with its objects open to sweeps.
pub proof fn a_released_shard_is_as_if_detached(
    s: ShardInfo,
    suppress_replication: bool,
    reason: DetachReason,
    now: Timestamp,
)
    ensures
        released(held(s, suppress_replication, reason, now)) == (ShardInfo {
            detach_reason: None,
            suppress_replication: false,
            ..detached(s, now)
        }),
{
}

/// A shard that is healthy or degraded takes writes and can be read. One that is
/// offline, held offline or syncing does neither; of these only one that is syncing is
/// not away.
pub proof fn a_shard_takes_writes_iff_it_can_be_read(health: ShardHealth)
    ensures
        health.writable() <==> !health.unavailable(),
        health.away() ==> health.unavailable(),
        match health {
            ShardHealth::Healthy | ShardHealth::Degraded => health.writable(),
            ShardHealth::Offline | ShardHealth::Detached => health.away(),
            ShardHealth::Syncing => health.unavailable() && !health.away(),
        },
{
}

/// An outage is timed from its beginning: when a shard that works or is syncing is
/// found degraded, offline or detached, its clock starts, and it runs on through all
/// that is found of it later, until the shard is healthy. Then nothing of the outage
/// is left.
pub proof fn an_outage_is_timed_from_its_beginning(
    s: ShardInfo,
    health: ShardHealth,
    now: Timestamp,
    later_health: ShardHealth,
    later: Timestamp,
)
    requires
        health == ShardHealth::Degraded || health == ShardHealth::Offline || health
            == ShardHealth::Detached,
    ensures
        ({
            let first = with_health(s, health, now);
            let second = with_health(first, later_health, later);
            &&& s.health == ShardHealth::Healthy || s.health == ShardHealth::Syncing
                ==> first.offline_since == Some(now)
            &&& later_health != ShardHealth::Healthy ==> second.offline_since
                == first.offline_since && second.detach_reason == s.detach_reason
                && second.suppress_replication == s.suppress_replication
            &&& later_health == ShardHealth::Healthy ==> second.offline_since is None
                && second.detach_reason is None && !second.suppress_replication
        }),
{
}

/// Setting the health of a shard sets that, and touches neither its number, its free
/// space nor its count of errors, no other shard, and nothing else of the cluster.
pub proof fn setting_the_health_of_a_shard_is_local(
    c: ClusterState,
    id: usize,
    health: ShardHealth,
    now: Timestamp,
)
    ensures
        ({
            let after = health_set(c, id, health, now);
            &&& id < c.shards.len() ==> {
                let s = c.shards[id as int];
                let t = after.shards[id as int];
                t.health == health && t.id == s.id && t.free_space == s.free_space
                    && t.crc_error_count == s.crc_error_count
            }
            &&& after.shards.len() == c.shards.len()
            &&& forall|i: int|
                0 <= i < c.shards.len() && i != id ==> #[trigger] after.shards[i] == c.shards[i]
            &&& after.entries == c.entries && after.rf == c.rf && after.min_writes == c.min_writes
            &&& after.dirty == c.dirty && after.read_counter == c.read_counter
        }),
{
}

/// Detaching a shard and holding it offline take it away, at the given time unless it
/// was away already, and forget what space it has. A shard that is held offline is
/// detached, with the reason and the wish that were given. One that is only detached
/// keeps what was noted before.
pub proof fn a_shard_that_is_taken_away_is_timed(
    s: ShardInfo,
    suppress_replication: bool,
    reason: DetachReason,
    now: Timestamp,
)
    ensures
        ({
            let away = detached(s, now);
            let kept = held(s, suppress_replication, reason, now);
            let since = if s.health == ShardHealth::Offline || s.health == ShardHealth::Detached {
                s.offline_since
            } else {
                Some(now)
            };
            &&& away.health == ShardHealth::Offline && kept.health == ShardHealth::Detached
            &&& away.offline_since == since && kept.offline_since == since
            &&& away.free_space == 0 && kept.free_space == 0
            &&& away.crc_error_count == s.crc_error_count && kept.crc_error_count
                == s.crc_error_count
            &&& away.detach_reason == s.detach_reason && away.suppress_replication
                == s.suppress_replication
            &&& kept.detach_reason == Some(reason) && kept.suppress_replication
                == suppress_replication
        }),
{
}

/// A new cluster keeps as many copies as were asked for, but at least one and, where it
/// has shards, no more than it has shards. Unless another number is set, a put may fail
/// on one of them, but never on all. The cluster holds nothing, takes writes and asks
/// no more of a delete than that one shard carries it out.
pub proof fn a_new_cluster_can_lose_one_write(shards: Seq<ShardInfo>, factor: nat)
    ensures
        ({
            let c = fresh_cluster(shards, factor);
            &&& c.rf >= 1
            &&& 1 <= factor <= shards.len() ==> c.rf == factor
            &&& shards.len() > 0 && factor > shards.len() ==> c.rf == shards.len()
            &&& factor == 0 ==> c.rf == 1
            &&& c.rf == 1 ==> c.min_writes == 1
            &&& c.rf > 1 ==> c.min_writes + 1 == c.rf
            &&& c.shards == shards
            &&& c.entries.dom() =~= Set::empty()
            &&& c.uploads.len() == 0
            &&& !c.dirty && !c.read_only && !c.delete_requires_min_writes && !c.vacuum_in_progress
            &&& c.refs is None
        }),
{
}

/// A shard is healthy at the start, without an outage or an error, and takes part in
/// replication; one that is missing is offline from that time on, and has no space.
pub proof fn a_shard_starts_without_a_past(id: usize, now: Timestamp)
    ensures
        ({
            let s = fresh_shard(id);
            &&& s.id == id && s.health == ShardHealth::Healthy && s.offline_since is None
            &&& s.crc_error_count == 0 && s.detach_reason is None && !s.suppress_replication
            &&& s.free_space == u64::MAX
        }),
        ({
            let s = missing_shard(id, now);
            &&& s.id == id && s.health == ShardHealth::Offline && s.offline_since == Some(now)
            &&& s.crc_error_count == 0 && s.detach_reason is None && !s.suppress_replication
            &&& s.free_space == 0
        }),
{
}

} // verus!
