//! Multipart uploads.
//!
//! The parts of an upload are kept on one shard, the primary. When the upload is
//! complete, the object is copied from there to the other shards. Uploads that have
//! not ended are tracked, so that abandoned ones can be purged.

use vstd::prelude::*;
use vstd::string::*;
use crate::catalog;
use crate::digest;
use crate::digest::{crc32c, RunningCrc};
use crate::error;
use crate::error::ShardError;
use crate::ids::ShardId;
use crate::metadata::ShardKind;
use crate::placement;
use crate::put;
use crate::put::PutRefusal;
use crate::store;
use crate::store::{ShardHealth, ShardedObjectStore, TrackedUpload};
use crate::time::Timestamp;
use crate::writes;
use crate::writes::{keep_existing, sort_answers};

verus! {

// -- Uploads that have not ended --------------------------------------------

/// The uploads without one.
pub open spec fn upload_ended(uploads: Seq<store::Upload>, id: u64) -> Seq<store::Upload> {
    uploads.filter(|u: store::Upload| u.id != id)
}

/// The cluster after an upload was registered, under the next number.
pub open spec fn upload_registered(
    c: store::ClusterState,
    location: Seq<char>,
    primary: usize,
    clock: u128,
) -> store::ClusterState {
    store::ClusterState {
        uploads: upload_ended(c.uploads, c.next_upload_id).push(
            store::Upload {
                id: c.next_upload_id,
                location,
                created_at: clock,
                primary_shard_id: primary,
            },
        ),
        next_upload_id: ((c.next_upload_id + 1) % 0x1_0000_0000_0000_0000) as u64,
        ..c
    }
}

/// The cluster after an upload has ended.
pub open spec fn upload_dropped(c: store::ClusterState, id: u64) -> store::ClusterState {
    store::ClusterState { uploads: upload_ended(c.uploads, id), ..c }
}

/// How long an upload has lasted, in nanoseconds.
pub open spec fn age(u: store::Upload, clock: u128) -> nat {
    if clock > u.created_at {
        (clock - u.created_at) as nat
    } else {
        0
    }
}

/// Whether an upload has lasted for longer than the cluster allows.
pub open spec fn stale(u: store::Upload, clock: u128, expiry: u128) -> bool {
    age(u, clock) > expiry
}

/// The uploads that are stale.
pub open spec fn stale_uploads(uploads: Seq<store::Upload>, clock: u128, expiry: u128) -> Seq<
    store::Upload,
> {
    uploads.filter(|u: store::Upload| stale(u, clock, expiry))
}

/// The uploads that are not stale.
pub open spec fn fresh_uploads(uploads: Seq<store::Upload>, clock: u128, expiry: u128) -> Seq<
    store::Upload,
> {
    uploads.filter(|u: store::Upload| !stale(u, clock, expiry))
}

/// How long an upload has lasted, in full seconds.
pub open spec fn age_secs(u: store::Upload, clock: u128) -> u64 {
    let secs = age(u, clock) / 1_000_000_000;
    if secs > u64::MAX {
        u64::MAX
    } else {
        secs as u64
    }
}

/// An upload as it is listed: its number, where it goes, for how many seconds it has
/// lasted, and its primary shard.
pub open spec fn listed_upload(u: store::Upload, clock: u128) -> (u64, Seq<char>, u64, usize) {
    (u.id, u.location, age_secs(u, clock), u.primary_shard_id)
}

/// Uploads as they are listed, in the terms of the model.
pub open spec fn listed_views(v: Seq<(u64, String, u64, usize)>) -> Seq<
    (u64, Seq<char>, u64, usize),
> {
    Seq::new(v.len(), |i: int| (v[i].0, v[i].1@, v[i].2, v[i].3))
}

fn upload_age(u: &TrackedUpload, clock: u128) -> (r: u128)
    ensures
        r == age(u@, clock),
{
    if clock > u.created_at {
        clock - u.created_at
    } else {
        0
    }
}

fn copy_upload(u: &TrackedUpload) -> (r: TrackedUpload)
    ensures
        r@ == u@,
{
    TrackedUpload {
        id: u.id,
        location: u.location.clone(),
        created_at: u.created_at,
        primary_shard_id: u.primary_shard_id,
    }
}

fn push_upload(v: &mut Vec<TrackedUpload>, u: TrackedUpload)
    ensures
        store::upload_views(final(v)@) == store::upload_views(old(v)@).push(u@),
{
    v.push(u);
    assert(store::upload_views(v@) =~= store::upload_views(old(v)@).push(u@));
}

/// The uploads without one.
fn drop_upload(uploads: &Vec<TrackedUpload>, id: u64) -> (r: Vec<TrackedUpload>)
    ensures
        store::upload_views(r@) == upload_ended(store::upload_views(uploads@), id),
{
    let ghost all = store::upload_views(uploads@);
    let ghost pred = |u: store::Upload| u.id != id;
    let mut r: Vec<TrackedUpload> = Vec::new();
    let mut i: usize = 0;
    proof {
        placement::lemma_filter_none(all, pred);
        assert(store::upload_views(r@) =~= all.take(0).filter(pred));
    }
    while i < uploads.len()
        invariant
            i <= uploads.len(),
            all == store::upload_views(uploads@),
            pred == (|u: store::Upload| u.id != id),
            store::upload_views(r@) == all.take(i as int).filter(pred),
        decreases uploads.len() - i,
    {
        proof {
            placement::lemma_filter_step(all, i as int, pred);
        }
        if uploads[i].id != id {
            push_upload(&mut r, copy_upload(&uploads[i]));
        }
        i = i + 1;
    }
    assert(all.take(i as int) =~= all);
    r
}

/// The uploads that are stale, and those that are not.
fn part_uploads(uploads: &Vec<TrackedUpload>, clock: u128, expiry: u128) -> (r: (
    Vec<TrackedUpload>,
    Vec<TrackedUpload>,
))
    ensures
        store::upload_views(r.0@) == stale_uploads(store::upload_views(uploads@), clock, expiry),
        store::upload_views(r.1@) == fresh_uploads(store::upload_views(uploads@), clock, expiry),
{
    let ghost all = store::upload_views(uploads@);
    let ghost old_ones = |u: store::Upload| stale(u, clock, expiry);
    let ghost others = |u: store::Upload| !stale(u, clock, expiry);
    let mut gone: Vec<TrackedUpload> = Vec::new();
    let mut kept: Vec<TrackedUpload> = Vec::new();
    let mut i: usize = 0;
    proof {
        placement::lemma_filter_none(all, old_ones);
        placement::lemma_filter_none(all, others);
        assert(store::upload_views(gone@) =~= all.take(0).filter(old_ones));
        assert(store::upload_views(kept@) =~= all.take(0).filter(others));
    }
    while i < uploads.len()
        invariant
            i <= uploads.len(),
            all == store::upload_views(uploads@),
            old_ones == (|u: store::Upload| stale(u, clock, expiry)),
            others == (|u: store::Upload| !stale(u, clock, expiry)),
            store::upload_views(gone@) == all.take(i as int).filter(old_ones),
            store::upload_views(kept@) == all.take(i as int).filter(others),
        decreases uploads.len() - i,
    {
        proof {
            placement::lemma_filter_step(all, i as int, old_ones);
            placement::lemma_filter_step(all, i as int, others);
        }
        if upload_age(&uploads[i], clock) > expiry {
            push_upload(&mut gone, copy_upload(&uploads[i]));
        } else {
            push_upload(&mut kept, copy_upload(&uploads[i]));
        }
        i = i + 1;
    }
    assert(all.take(i as int) =~= all);
    (gone, kept)
}

impl ShardedObjectStore {
    /// Registers an upload that begins at a time of the monotonic clock. Its number.
    pub fn register_multipart(&mut self, location: &str, primary_shard_id: ShardId, clock: u128) -> (id:
        u64)
        ensures
            id == old(self)@.next_upload_id,
            final(self)@ == upload_registered(
                old(self)@,
                location@,
                primary_shard_id,
                clock,
            ),
            store::valid(old(self)@) ==> store::valid(final(self)@),
    {
        let id: u64 = self.take_upload_id();
        let mut kept = drop_upload(self.uploads(), id);
        push_upload(
            &mut kept,
            TrackedUpload {
                id,
                location: location.to_owned(),
                created_at: clock,
                primary_shard_id,
            },
        );
        *self.uploads_mut() = kept;
        id
    }

    /// Forgets an upload that has ended.
    pub fn deregister_multipart(&mut self, id: u64)
        ensures
            final(self)@ == upload_dropped(old(self)@, id),
            store::valid(old(self)@) ==> store::valid(final(self)@),
    {
        let kept = drop_upload(self.uploads(), id);
        *self.uploads_mut() = kept;
    }

    /// The number of uploads that have not ended.
    pub fn multipart_upload_count(&self) -> (n: usize)
        ensures
            n == self@.uploads.len(),
    {
        self.uploads().len()
    }

    /// The uploads that have not ended, at a time of the monotonic clock: the number
    /// of each, where it goes, for how many seconds it has lasted, and its primary
    /// shard.
    pub fn list_multipart_uploads(&self, clock: u128) -> (r: Vec<(u64, String, u64, ShardId)>)
        ensures
            listed_views(r@) == self@.uploads.map_values(
                |u: store::Upload| listed_upload(u, clock),
            ),
    {
        let uploads = self.uploads();
        let mut r: Vec<(u64, String, u64, ShardId)> = Vec::new();
        let mut i: usize = 0;
        while i < uploads.len()
            invariant
                i <= uploads.len(),
                store::upload_views(uploads@) == self@.uploads,
                r.len() == i,
                forall|k: int|
                    0 <= k < i ==> listed_upload(uploads@[k]@, clock) == (
                        (#[trigger] r@[k]).0,
                        r@[k].1@,
                        r@[k].2,
                        r@[k].3,
                    ),
            decreases uploads.len() - i,
        {
            let u = &uploads[i];
            let secs: u128 = upload_age(u, clock) / 1_000_000_000;
            let capped: u64 = if secs > u64::MAX as u128 {
                u64::MAX
            } else {
                secs as u64
            };
            r.push((u.id, u.location.clone(), capped, u.primary_shard_id));
            i = i + 1;
        }
        assert(listed_views(r@) =~= self@.uploads.map_values(
            |u: store::Upload| listed_upload(u, clock),
        )) by {
            assert forall|k: int| 0 <= k < r.len() implies #[trigger] listed_views(r@)[k]
                == self@.uploads.map_values(|u: store::Upload| listed_upload(u, clock))[k] by {
                assert(self@.uploads[k] == uploads@[k]@);
                assert(listed_upload(uploads@[k]@, clock) == (r@[k].0, r@[k].1@, r@[k].2, r@[k].3));
            }
        }
        r
    }

    /// Forgets the uploads that are stale at a time of the monotonic clock. What they
    /// left on their primary shards is to be deleted, where these exist.
    pub fn purge_stale_multiparts(&mut self, clock: u128) -> (purged: Vec<TrackedUpload>)
        ensures
            store::upload_views(purged@) == stale_uploads(
                old(self)@.uploads,
                clock,
                old(self)@.multipart_expiry,
            ),
            final(self)@ == (store::ClusterState {
                uploads: fresh_uploads(
                    old(self)@.uploads,
                    clock,
                    old(self)@.multipart_expiry,
                ),
                ..old(self)@
            }),
            store::valid(old(self)@) ==> store::valid(final(self)@),
    {
        let expiry: u128 = self.multipart_expiry();
        let (purged, kept) = part_uploads(self.uploads(), clock, expiry);
        *self.uploads_mut() = kept;
        purged
    }
}

// -- Starting an upload -----------------------------------------------------

/// An upload that is being started.
pub struct StartState {
    pub key: Seq<char>,
    /// The shards for the object. The first is the primary.
    pub targets: Seq<usize>,
    /// Whether another primary has failed.
    pub second: bool,
}

/// The upload when it is asked for, or why it is refused.
pub open spec fn start_begun(c: store::ClusterState, key: Seq<char>, hash: u32) -> Result<
    StartState,
    PutRefusal,
> {
    let targets = placement::targets(c.shards, c.rf, hash);
    if c.read_only {
        Err(PutRefusal::ReadOnly)
    } else if targets.len() == 0 {
        Err(PutRefusal::NoShards)
    } else {
        Ok(StartState { key, targets, second: false })
    }
}

/// An upload that has been started.
pub struct UploadState {
    pub key: Seq<char>,
    pub primary: usize,
    pub replicas: Seq<usize>,
    pub tracking_id: u64,
    pub min_writes: nat,
}

/// What comes next when an upload is being started.
pub enum StartStepSpec {
    /// Start it on another primary.
    Start(StartState),
    /// It has been started.
    Started(UploadState),
    /// There is no shard to start it on.
    NoShards,
    /// The second primary has failed too.
    Failed,
}

/// The upload that a start has led to.
pub open spec fn upload_of(c: store::ClusterState, s: StartState) -> UploadState {
    UploadState {
        key: s.key,
        primary: s.targets[0],
        replicas: writes::existing(c.shards.len(), s.targets.skip(1)),
        tracking_id: c.next_upload_id,
        min_writes: c.min_writes,
    }
}

/// The cluster and what comes next, after the primary has answered. One that failed
/// is offline, and the upload is started on another, once.
pub open spec fn start_reported(
    c: store::ClusterState,
    s: StartState,
    started: bool,
    hash: u32,
    clock: u128,
    now: Timestamp,
) -> (store::ClusterState, StartStepSpec) {
    if started {
        (
            upload_registered(c, s.key, s.targets[0], clock),
            StartStepSpec::Started(upload_of(c, s)),
        )
    } else if s.second {
        (c, StartStepSpec::Failed)
    } else {
        let after = store::health_set(c, s.targets[0], ShardHealth::Offline, now);
        let again = placement::targets(after.shards, after.rf, hash);
        if again.len() == 0 {
            (after, StartStepSpec::NoShards)
        } else {
            (
                after,
                StartStepSpec::Start(StartState { key: s.key, targets: again, second: true }),
            )
        }
    }
}

/// An upload that is being started.
#[derive(Debug)]
pub struct MultipartStart {
    key: String,
    targets: Vec<ShardId>,
    second: bool,
}

impl View for MultipartStart {
    type V = StartState;

    closed spec fn view(&self) -> StartState {
        StartState { key: self.key@, targets: self.targets@, second: self.second }
    }
}

/// What comes next when an upload is being started.
#[derive(Debug)]
pub enum StartStep {
    /// Start it on another primary.
    Start(MultipartStart),
    /// It has been started.
    Started(MultipartJob),
    /// There is no shard to start it on.
    NoShards,
    /// The second primary has failed too.
    Failed,
}

impl View for StartStep {
    type V = StartStepSpec;

    open spec fn view(&self) -> StartStepSpec {
        match *self {
            StartStep::Start(s) => StartStepSpec::Start(s@),
            StartStep::Started(j) => StartStepSpec::Started(j@),
            StartStep::NoShards => StartStepSpec::NoShards,
            StartStep::Failed => StartStepSpec::Failed,
        }
    }
}

impl MultipartStart {
    #[verifier::type_invariant]
    spec fn inv(&self) -> bool {
        self.targets@.len() > 0
    }

    /// Asks for an upload.
    pub fn begin(store: &ShardedObjectStore, key: &str) -> (r: Result<MultipartStart, PutRefusal>)
        ensures
            start_view(r) == start_begun(store@, key@, placement::key_hash(key@)),
    {
        let hash: u32 = crc32c(key.as_bytes());
        Self::begin_for_hash(store, key, hash)
    }

    /// Asks for an upload, given the hash of the key.
    pub fn begin_for_hash(store: &ShardedObjectStore, key: &str, hash: u32) -> (r: Result<
        MultipartStart,
        PutRefusal,
    >)
        ensures
            start_view(r) == start_begun(store@, key@, hash),
    {
        if store.is_read_only() {
            return Err(PutRefusal::ReadOnly);
        }
        let targets = store.targets_for_hash(hash);
        if targets.len() == 0 {
            return Err(PutRefusal::NoShards);
        }
        Ok(MultipartStart { key: key.to_owned(), targets, second: false })
    }

    /// The shard on which to start the upload.
    pub fn primary(&self) -> (r: ShardId)
        ensures
            self@.targets.len() > 0,
            r == self@.targets[0],
    {
        proof {
            use_type_invariant(self);
        }
        self.targets[0]
    }

    /// Takes whether the primary has started the upload, given the hash of the key, at
    /// a time of the monotonic clock.
    pub fn report_for_hash(
        self,
        store: &mut ShardedObjectStore,
        started: bool,
        hash: u32,
        clock: u128,
        now: Timestamp,
    ) -> (step: StartStep)
        ensures
            (final(store)@, step@) == start_reported(
                old(store)@,
                self@,
                started,
                hash,
                clock,
                now,
            ),
            store::valid(old(store)@) ==> store::valid(final(store)@),
    {
        proof {
            use_type_invariant(&self);
        }
        let primary: usize = self.targets[0];
        if started {
            let mut rest: Vec<ShardId> = Vec::new();
            let mut i: usize = 1;
            while i < self.targets.len()
                invariant
                    1 <= i <= self.targets.len(),
                    rest@ == self.targets@.subrange(1, i as int),
                decreases self.targets.len() - i,
            {
                rest.push(self.targets[i]);
                assert(rest@ =~= self.targets@.subrange(1, i + 1));
                i = i + 1;
            }
            assert(rest@ =~= self.targets@.skip(1));
            let replicas = keep_existing(store.shard_count(), rest.as_slice());
            let min_writes: usize = store.min_writes();
            let tracking_id: u64 = store.register_multipart(self.key.as_str(), primary, clock);
            StartStep::Started(
                MultipartJob { key: self.key, primary, replicas, tracking_id, min_writes },
            )
        } else if self.second {
            StartStep::Failed
        } else {
            store.set_shard_health_at(primary, ShardHealth::Offline, now);
            let targets = store.targets_for_hash(hash);
            if targets.len() == 0 {
                StartStep::NoShards
            } else {
                StartStep::Start(MultipartStart { key: self.key, targets, second: true })
            }
        }
    }

    /// Takes whether the primary has started the upload, at a time of the monotonic
    /// clock.
    pub fn report(
        self,
        store: &mut ShardedObjectStore,
        started: bool,
        clock: u128,
        now: Timestamp,
    ) -> (step: StartStep)
        ensures
            (final(store)@, step@) == start_reported(
                old(store)@,
                self@,
                started,
                placement::key_hash(self@.key),
                clock,
                now,
            ),
            store::valid(old(store)@) ==> store::valid(final(store)@),
    {
        let hash: u32 = crc32c(self.key.as_str().as_bytes());
        self.report_for_hash(store, started, hash, clock, now)
    }
}

/// What asking for an upload returned, in the terms of the model.
pub open spec fn start_view(r: Result<MultipartStart, PutRefusal>) -> Result<
    StartState,
    PutRefusal,
> {
    match r {
        Ok(s) => Ok(s@),
        Err(e) => Err(e),
    }
}

// -- Completing an upload ---------------------------------------------------

/// The shards that hold the object after its replicas were written.
pub open spec fn upload_placed(u: UploadState, results: Seq<Option<Seq<char>>>) -> Seq<usize> {
    seq![u.primary] + writes::successes(u.replicas, results)
}

/// What the end of an upload leads to: nothing if it succeeded, or the error and the
/// shards from which to delete the object.
pub type UploadEnd = Result<(), (error::ErrorSpec, Seq<usize>)>;

/// The cluster and the end of an upload whose object was copied to other shards. If
/// these are too few, the object is deleted everywhere; otherwise it is recorded.
pub open spec fn upload_finished(
    c: store::ClusterState,
    u: UploadState,
    size: u64,
    crc: u32,
    meta_len: u16,
    results: Seq<Option<Seq<char>>>,
    now: Timestamp,
) -> (store::ClusterState, UploadEnd) {
    let placed = upload_placed(u, results);
    if placed.len() < u.min_writes {
        (
            c,
            Err(
                (
                    error::ErrorSpec::InsufficientWrites {
                        path: u.key,
                        required: u.min_writes,
                        actual: placed.len(),
                        errors: writes::messages(u.replicas, results, ": "@),
                    },
                    writes::successes(u.replicas, results).push(u.primary),
                ),
            ),
        )
    } else {
        (
            put::with_entries(
                c,
                c.entries.insert(
                    u.key,
                    catalog::placed(placed, size, Some(crc), meta_len, now),
                ),
            ),
            Ok(()),
        )
    }
}

/// The length of metadata to record for an object on its primary shard alone: only a
/// raw shard tells it.
pub open spec fn single_meta_len(c: store::ClusterState, primary: usize, raw: Option<usize>) -> u16 {
    if c.refs is Some && c.refs->0.kind_of(primary) == ShardKind::Raw && raw is Some {
        raw->0 as u16
    } else {
        0
    }
}

/// The cluster and the end of an upload that is kept on its primary shard alone, which
/// may be too few.
pub open spec fn single_finished(
    c: store::ClusterState,
    u: UploadState,
    size: u64,
    crc: u32,
    raw: Option<usize>,
    now: Timestamp,
) -> (store::ClusterState, UploadEnd) {
    upload_finished(
        c,
        UploadState { replicas: Seq::empty(), ..u },
        size,
        crc,
        single_meta_len(c, u.primary, raw),
        Seq::empty(),
        now,
    )
}

/// An upload that has been started.
#[derive(Debug)]
pub struct MultipartJob {
    key: String,
    primary: ShardId,
    replicas: Vec<ShardId>,
    tracking_id: u64,
    min_writes: usize,
}

impl View for MultipartJob {
    type V = UploadState;

    closed spec fn view(&self) -> UploadState {
        UploadState {
            key: self.key@,
            primary: self.primary,
            replicas: self.replicas@,
            tracking_id: self.tracking_id,
            min_writes: self.min_writes as nat,
        }
    }
}

/// Why an upload failed, and the shards from which to delete its object.
#[derive(Debug)]
pub struct UploadFailure {
    pub error: ShardError,
    pub cleanup: Vec<ShardId>,
}

/// The end of an upload, in the terms of the model.
pub open spec fn end_view(r: Result<(), UploadFailure>) -> UploadEnd {
    match r {
        Ok(()) => Ok(()),
        Err(f) => Err((f.error@, f.cleanup@)),
    }
}

impl MultipartJob {
    /// The shard that holds the parts.
    pub fn primary(&self) -> (r: ShardId)
        ensures
            r == self@.primary,
    {
        self.primary
    }

    /// The shards to copy the object to.
    pub fn replicas(&self) -> (r: &Vec<ShardId>)
        ensures
            r@ == self@.replicas,
    {
        &self.replicas
    }

    /// Records that the primary has put the parts together. From here on the upload
    /// is no longer tracked, so that purging cannot delete the object.
    pub fn assembled(&self, store: &mut ShardedObjectStore)
        ensures
            final(store)@ == upload_dropped(old(store)@, self@.tracking_id),
            store::valid(old(store)@) ==> store::valid(final(store)@),
    {
        store.deregister_multipart(self.tracking_id);
    }

    /// Records that the upload was aborted.
    pub fn abort(&self, store: &mut ShardedObjectStore)
        ensures
            final(store)@ == upload_dropped(old(store)@, self@.tracking_id),
            store::valid(old(store)@) ==> store::valid(final(store)@),
    {
        store.deregister_multipart(self.tracking_id);
    }

    /// Completes an upload whose object was read back and copied to the replicas, with
    /// metadata of some length, given what each of them has answered.
    pub fn complete(
        &self,
        store: &mut ShardedObjectStore,
        data: &[u8],
        meta_len: usize,
        results: &Vec<Option<String>>,
        now: Timestamp,
    ) -> (r: Result<(), UploadFailure>)
        requires
            results.len() == self@.replicas.len(),
        ensures
            (final(store)@, end_view(r)) == upload_finished(
                old(store)@,
                self@,
                data@.len() as u64,
                digest::crc32c_of(data@),
                meta_len as u16,
                writes::answers(results@),
                now,
            ),
            store::valid(old(store)@) ==> store::valid(final(store)@),
    {
        let crc: u32 = crc32c(data);
        self.complete_with(store, data.len() as u64, crc, meta_len as u16, results, now)
    }

    /// Completes an upload whose object, of a given size and checksum, was copied to
    /// the replicas.
    pub fn complete_with(
        &self,
        store: &mut ShardedObjectStore,
        size: u64,
        crc: u32,
        meta_len: u16,
        results: &Vec<Option<String>>,
        now: Timestamp,
    ) -> (r: Result<(), UploadFailure>)
        requires
            results.len() == self@.replicas.len(),
        ensures
            (final(store)@, end_view(r)) == upload_finished(
                old(store)@,
                self@,
                size,
                crc,
                meta_len,
                writes::answers(results@),
                now,
            ),
            store::valid(old(store)@) ==> store::valid(final(store)@),
    {
        let (ok, _failed, errors) = sort_answers(&self.replicas, results, ": ");
        let mut placed: Vec<ShardId> = Vec::new();
        placed.push(self.primary);
        placed.extend_from_slice(ok.as_slice());
        assert(placed@ =~= upload_placed(self@, writes::answers(results@)));
        if placed.len() < self.min_writes {
            let mut cleanup = ok;
            cleanup.push(self.primary);
            return Err(
                UploadFailure {
                    error: ShardError::InsufficientWrites {
                        path: self.key.clone(),
                        required: self.min_writes,
                        actual: placed.len(),
                        errors,
                    },
                    cleanup,
                },
            );
        }
        store.catalog_mut().put_at(self.key.clone(), placed, size, Some(crc), meta_len, now);
        Ok(())
    }

    /// Completes an upload without replicas: the checksum of the object has been
    /// computed in pieces, and a raw primary tells how long its metadata is.
    pub fn complete_single(
        &self,
        store: &mut ShardedObjectStore,
        size: u64,
        crc: &RunningCrc,
        raw_meta_len: Option<usize>,
        now: Timestamp,
    ) -> (r: Result<(), UploadFailure>)
        ensures
            (final(store)@, end_view(r)) == single_finished(
                old(store)@,
                self@,
                size,
                crc@,
                raw_meta_len,
                now,
            ),
            store::valid(old(store)@) ==> store::valid(final(store)@),
    {
        let is_raw = match store.raw_refs() {
            Some(refs) => refs.kind(self.primary) == ShardKind::Raw,
            None => false,
        };
        let meta_len: u16 = match raw_meta_len {
            Some(n) if is_raw => n as u16,
            _ => 0,
        };
        let alone = MultipartJob {
            key: self.key.clone(),
            primary: self.primary,
            replicas: Vec::new(),
            tracking_id: self.tracking_id,
            min_writes: self.min_writes,
        };
        let none: Vec<Option<String>> = Vec::new();
        assert(alone@.replicas =~= Seq::<usize>::empty());
        assert(writes::answers(none@) =~= Seq::<Option<Seq<char>>>::empty());
        alone.complete_with(store, size, crc.value(), meta_len, &none, now)
    }
}

// -- Laws -------------------------------------------------------------------

/// No upload that is still young enough is purged, and none that is too old stays.
pub proof fn purging_parts_the_uploads_by_age(
    uploads: Seq<store::Upload>,
    clock: u128,
    expiry: u128,
)
    ensures
        forall|u: store::Upload| #[trigger]
            uploads.contains(u) ==> (stale_uploads(uploads, clock, expiry).contains(u) <==> stale(
                u,
                clock,
                expiry,
            )) && (fresh_uploads(uploads, clock, expiry).contains(u) <==> !stale(u, clock, expiry)),
{
    broadcast use vstd::seq_lib::group_filter_ensures;

    let gone = |u: store::Upload| stale(u, clock, expiry);
    let kept = |u: store::Upload| !stale(u, clock, expiry);
    catalog::lemma_filter_members(uploads, gone);
    catalog::lemma_filter_members(uploads, kept);
    assert forall|u: store::Upload| #[trigger] uploads.contains(u) implies (uploads.filter(
        gone,
    ).contains(u) <==> gone(u)) && (uploads.filter(kept).contains(u) <==> kept(u)) by {
        let i = uploads.index_of(u);
        assert(uploads[i] == u);
        if gone(u) {
            uploads.lemma_filter_contains(gone, i);
        } else {
            uploads.lemma_filter_contains(kept, i);
        }
    }
}

/// An upload whose object is in place is not purged later, however old it is.
pub proof fn an_assembled_upload_is_not_purged(c: store::ClusterState, id: u64, clock: u128)
    ensures
        forall|u: store::Upload| #[trigger]
            stale_uploads(upload_dropped(c, id).uploads, clock, c.multipart_expiry).contains(u)
                ==> u.id != id,
{
    let kept = upload_dropped(c, id).uploads;
    catalog::lemma_filter_members(kept, |u: store::Upload| stale(u, clock, c.multipart_expiry));
    catalog::lemma_filter_members(c.uploads, |u: store::Upload| u.id != id);
}

/// An upload that succeeds is recorded on its primary shard and on the replicas that
/// took it, which together are as many as a put needs.
pub proof fn an_upload_succeeds_only_on_enough_shards(
    c: store::ClusterState,
    u: UploadState,
    size: u64,
    crc: u32,
    meta_len: u16,
    results: Seq<Option<Seq<char>>>,
    now: Timestamp,
)
    ensures
        ({
            let (after, end) = upload_finished(c, u, size, crc, meta_len, results, now);
            &&& end is Ok ==> after.entries.contains_key(u.key) && after.entries[u.key].shards
                == upload_placed(u, results) && after.entries[u.key].shards.len() >= u.min_writes
            &&& end is Err ==> after == c && upload_placed(u, results).len() < u.min_writes
        }),
{
}

/// An upload without replicas succeeds only if a put needs no more than one shard.
pub proof fn a_single_upload_succeeds_only_if_one_shard_is_enough(
    c: store::ClusterState,
    u: UploadState,
    size: u64,
    crc: u32,
    raw: Option<usize>,
    now: Timestamp,
)
    ensures
        ({
            let (after, end) = single_finished(c, u, size, crc, raw, now);
            &&& end is Ok <==> u.min_writes <= 1
            &&& end is Ok ==> after.entries[u.key].shards == seq![u.primary]
            &&& end matches Err((e, cleanup)) ==> after == c && cleanup == seq![u.primary] && e
                == (error::ErrorSpec::InsufficientWrites {
                path: u.key,
                required: u.min_writes,
                actual: 1,
                errors: Seq::empty(),
            })
        }),
{
    let alone = UploadState { replicas: Seq::empty(), ..u };
    assert(upload_placed(alone, Seq::empty()) =~= seq![u.primary]);
    assert(writes::successes(alone.replicas, Seq::empty()).push(u.primary) =~= seq![u.primary]);
}

/// An upload that is registered is tracked under a number of its own until it has ended,
/// and then no more. Whatever else is tracked stays.
pub proof fn an_upload_is_tracked_until_it_has_ended(
    c: store::ClusterState,
    location: Seq<char>,
    primary: usize,
    clock: u128,
)
    requires
        forall|i: int|
            0 <= i < c.uploads.len() ==> (#[trigger] c.uploads[i]).id != c.next_upload_id,
    ensures
        ({
            let during = upload_registered(c, location, primary, clock);
            let u = during.uploads.last();
            &&& during.uploads == c.uploads.push(u)
            &&& u.id == c.next_upload_id && u.location == location && u.primary_shard_id == primary
                && u.created_at == clock
            &&& during.next_upload_id != c.next_upload_id
            &&& upload_dropped(during, u.id).uploads == c.uploads
            &&& during.entries == c.entries && during.shards == c.shards
        }),
{
    let id = c.next_upload_id;
    let pred = |u: store::Upload| u.id != id;
    lemma_all_kept(c.uploads, pred);
    let during = upload_registered(c, location, primary, clock);
    let u = during.uploads.last();
    c.uploads.lemma_filter_push(u, pred);
}

proof fn lemma_all_kept(uploads: Seq<store::Upload>, pred: spec_fn(store::Upload) -> bool)
    requires
        forall|i: int| 0 <= i < uploads.len() ==> pred(#[trigger] uploads[i]),
    ensures
        uploads.filter(pred) == uploads,
    decreases uploads.len(),
{
    reveal(Seq::filter);
    if uploads.len() > 0 {
        let head = uploads.drop_last();
        assert forall|i: int| 0 <= i < head.len() implies pred(#[trigger] head[i]) by {
            assert(head[i] == uploads[i]);
        }
        lemma_all_kept(head, pred);
        assert(pred(uploads[uploads.len() - 1]));
        assert(uploads =~= head.push(uploads.last()));
    } else {
        assert(uploads.filter(pred) =~= uploads);
    }
}

/// Ending an upload forgets that one and no other.
pub proof fn ending_an_upload_forgets_it_alone(c: store::ClusterState, id: u64, u: store::Upload)
    ensures
        upload_dropped(c, id).uploads.contains(u) <==> c.uploads.contains(u) && u.id != id,
{
    let pred = |u: store::Upload| u.id != id;
    if c.uploads.filter(pred).contains(u) {
        c.uploads.lemma_filter_pred(pred, c.uploads.filter(pred).index_of(u));
        c.uploads.lemma_filter_contains_rev(pred, u);
    }
    if c.uploads.contains(u) && u.id != id {
        c.uploads.lemma_filter_contains(pred, c.uploads.index_of(u));
    }
}

/// An upload is stale exactly if more time than the cluster allows has passed since it
/// began, and it is listed with the full seconds that have.
pub proof fn an_upload_is_stale_when_its_time_has_passed(u: store::Upload, clock: u128, expiry: u128)
    ensures
        stale(u, clock, expiry) <==> clock > u.created_at + expiry,
        listed_upload(u, clock).0 == u.id,
        listed_upload(u, clock).1 == u.location,
        listed_upload(u, clock).3 == u.primary_shard_id,
        u.created_at <= clock && clock - u.created_at < 0x1_0000_0000_0000_0000 ==> ({
            let secs = listed_upload(u, clock).2;
            secs * 1_000_000_000 <= clock - u.created_at < (secs + 1) * 1_000_000_000
        }),
{
}

/// An upload is refused only by a cluster that is read-only or has no shard that takes
/// writes. Its primary is the first of the shards that a put of the object would go to.
pub proof fn an_upload_goes_where_a_put_would(c: store::ClusterState, key: Seq<char>, hash: u32)
    ensures
        ({
            let r = start_begun(c, key, hash);
            &&& r == Err::<StartState, PutRefusal>(PutRefusal::ReadOnly) <==> c.read_only
            &&& r == Err::<StartState, PutRefusal>(PutRefusal::NoShards) <==> !c.read_only
                && put::put_targets(c, put::PutMode::Overwrite, hash).len() == 0
            &&& r matches Ok(s) ==> s.key == key && !s.second && s.targets == put::put_targets(
                c,
                put::PutMode::Overwrite,
                hash,
            )
            &&& r matches Err(e) ==> e == PutRefusal::ReadOnly || e == PutRefusal::NoShards
        }),
{
}

/// A primary that does not start an upload is offline from then on, and the upload is
/// started once more where any shard takes writes, on another primary. The second time
/// it fails. One that does start it is registered with it, and the other shards that were
/// chosen become its replicas.
pub proof fn an_upload_is_started_once_more_elsewhere(
    c: store::ClusterState,
    s: StartState,
    hash: u32,
    clock: u128,
    now: Timestamp,
)
    requires
        c.shards.len() <= usize::MAX,
        c.rf >= 1,
        s.targets.len() > 0,
        s.targets.no_duplicates(),
        forall|i: int| 0 <= i < s.targets.len() ==> (#[trigger] s.targets[i]) < c.shards.len(),
    ensures
        ({
            let primary = s.targets[0];
            let (after, step) = start_reported(c, s, false, hash, clock, now);
            let (during, started) = start_reported(c, s, true, hash, clock, now);
            let other = |id: usize|
                id < c.shards.len() && id != primary && c.shards[id as int].health.writable();
            let elsewhere = exists|id: usize| #[trigger] other(id);
            &&& s.second ==> after == c && step == StartStepSpec::Failed
            &&& !s.second ==> after.shards[primary as int].health == ShardHealth::Offline
            &&& !s.second && elsewhere ==> (step matches StartStepSpec::Start(t) && t.second
                && t.key == s.key && t.targets.len() > 0 && other(t.targets[0]))
            &&& !s.second && !elsewhere ==> step == StartStepSpec::NoShards
            &&& started matches StartStepSpec::Started(u) && u.key == s.key && u.primary == primary
                && u.tracking_id == c.next_upload_id && u.min_writes == c.min_writes
                && !u.replicas.contains(primary) && forall|id: usize|
                id != primary ==> (#[trigger] u.replicas.contains(id) <==> s.targets.contains(id))
            &&& during.uploads.last().id == c.next_upload_id
                && during.uploads.last().primary_shard_id == primary
        }),
{
    let primary = s.targets[0];
    let other = |id: usize|
        id < c.shards.len() && id != primary && c.shards[id as int].health.writable();
    let after = store::health_set(c, primary, ShardHealth::Offline, now);
    assert(s.targets[0] < c.shards.len());
    placement::targets_are_distinct_writable_shards(after.shards, after.rf, hash);
    let again = placement::targets(after.shards, after.rf, hash);
    if again.len() > 0 {
        assert(placement::takes_writes(after.shards, again[0]));
        assert(other(again[0]));
    }
    if exists|id: usize| #[trigger] other(id) {
        let id = choose|id: usize| #[trigger] other(id);
        let all = placement::all_ids(after.shards.len());
        let pred = |id: usize| placement::takes_writes(after.shards, id);
        assert(after.shards[id as int] == c.shards[id as int]);
        assert(all[id as int] == id);
        all.lemma_filter_contains(pred, id as int);
        assert(placement::writable_of(after.shards, all).contains(id));
        assert(again.len() > 0);
    }
    let rest = s.targets.skip(1);
    let there = |id: usize| id < c.shards.len();
    assert forall|id: usize| #[trigger] writes::existing(c.shards.len(), rest).contains(id)
        <==> id != primary && s.targets.contains(id) by {
        writes::lemma_kept(rest, there, id);
        if rest.contains(id) {
            let i = rest.index_of(id);
            assert(s.targets[i + 1] == id);
            assert(s.targets[0] != s.targets[i + 1]);
            assert(s.targets[i + 1] < c.shards.len());
        }
        if id != primary && s.targets.contains(id) {
            let i = s.targets.index_of(id);
            assert(rest[i - 1] == id);
            assert(s.targets[i] < c.shards.len());
        }
    }
}

/// An upload whose replicas have answered succeeds exactly if its primary and the
/// replicas that took the object are enough. It is then recorded with its size, checksum
/// and length of metadata. If they are too few, it is deleted from all that hold it, and
/// the catalog stays as it is.
pub proof fn an_upload_is_judged_by_how_many_took_it(
    c: store::ClusterState,
    u: UploadState,
    size: u64,
    crc: u32,
    meta_len: u16,
    results: Seq<Option<Seq<char>>>,
    now: Timestamp,
)
    requires
        u.replicas.len() == results.len(),
    ensures
        ({
            let (after, end) = upload_finished(c, u, size, crc, meta_len, results, now);
            let n = 1 + writes::tally_of(results);
            let holds = |id: usize|
                id == u.primary || writes::answered_with(u.replicas, results, id, true);
            &&& end is Ok <==> n >= u.min_writes
            &&& end is Ok ==> {
                let e = after.entries[u.key];
                &&& after.entries == c.entries.insert(u.key, e)
                &&& e.shards.len() == n && forall|id: usize| #[trigger]
                    e.shards.contains(id) <==> holds(id)
                &&& e.size == size && e.crc32c == Some(crc) && e.meta_len == meta_len && e.updated
                    == now
                &&& after.dirty
            }
            &&& end matches Err((error, cleanup)) ==> after == c && (forall|id: usize| #[trigger]
                cleanup.contains(id) <==> holds(id)) && (error matches error::ErrorSpec::InsufficientWrites {
                path,
                required,
                actual,
                ..
            } && path == u.key && required == u.min_writes && actual == n)
        }),
{
    writes::answers_part_the_shards(u.replicas, results);
    let took = writes::successes(u.replicas, results);
    let placed = upload_placed(u, results);
    let cleanup = took.push(u.primary);
    assert forall|id: usize| #[trigger] placed.contains(id) <==> id == u.primary || took.contains(
        id,
    ) by {
        assert(placed[0] == u.primary);
        if took.contains(id) {
            assert(placed[took.index_of(id) + 1] == id);
        }
        if placed.contains(id) && id != u.primary {
            let i = placed.index_of(id);
            assert(took[i - 1] == id);
        }
    }
    assert forall|id: usize| #[trigger] cleanup.contains(id) <==> id == u.primary || took.contains(
        id,
    ) by {
        writes::lemma_pushed(took, u.primary, id);
    }
}

/// The length of metadata is recorded as a raw shard tells it, and as none for any other
/// shard, or where nothing is known of the shards.
pub proof fn only_a_raw_shard_tells_the_length_of_metadata(
    c: store::ClusterState,
    primary: usize,
    raw: Option<usize>,
    n: u16,
)
    ensures
        c.refs is None ==> single_meta_len(c, primary, raw) == 0,
        c.refs matches Some(refs) ==> {
            &&& refs.kind_of(primary) != ShardKind::Raw ==> single_meta_len(c, primary, raw) == 0
            &&& refs.kind_of(primary) == ShardKind::Raw ==> single_meta_len(
                c,
                primary,
                Some(n as usize),
            ) == n
        },
        single_meta_len(c, primary, None) == 0,
{
}

} // verus!
