//! Putting an object: choosing its shards, writing it, recording where it is.

use vstd::prelude::*;
use vstd::string::*;
use crate::catalog;
use crate::digest;
use crate::digest::crc32c;
use crate::error;
use crate::error::ShardError;
use crate::ids::{copy_ids, ids_eq, ShardId};
use crate::path;
use crate::path::path_from;
use crate::placement;
use crate::store;
use crate::store::ShardedObjectStore;
use crate::time::Timestamp;
use crate::writes;
use crate::writes::{WriteJob, WriteStep};

verus! {

/// What kind of put this is.
#[derive(Clone, Copy, Debug, PartialEq, Eq, Structural)]
pub enum PutMode {
    /// Writes the object whether it is there or not.
    Overwrite,
    /// Writes the object if it is not there.
    Create,
    /// Writes the copy of an object if it is not there. It is tried once.
    CopyIfAbsent,
    /// Writes a delete marker to all shards, with as many successes as a put needs.
    StrictMarker,
    /// Writes a delete marker to all shards, with one success.
    BestEffortMarker,
}

impl PutMode {
    /// Whether this put writes a delete marker.
    pub open spec fn marks(self) -> bool {
        self == PutMode::StrictMarker || self == PutMode::BestEffortMarker
    }

    /// Whether this put must not find the object there.
    pub open spec fn must_be_new(self) -> bool {
        self == PutMode::Create || self == PutMode::CopyIfAbsent
    }

    /// Whether this put starts over on other shards if none took it.
    pub open spec fn starts_over(self) -> bool {
        self == PutMode::Overwrite || self == PutMode::Create
    }

    /// Whether a put that succeeds is announced, and a delete marker of the object
    /// removed.
    pub open spec fn announced(self) -> bool {
        self.starts_over()
    }

    /// Whether a put that succeeds is announced, and a delete marker of the object
    /// removed.
    pub fn is_announced(&self) -> (r: bool)
        ensures
            r == self.announced(),
    {
        match self {
            PutMode::Overwrite | PutMode::Create => true,
            _ => false,
        }
    }
}

/// Why a put is refused before anything is written.
#[derive(Clone, Copy, Debug, PartialEq, Eq, Structural)]
pub enum PutRefusal {
    ReadOnly,
    NoShards,
    AlreadyExists,
    /// The caller asks for a version that the cluster does not keep.
    Precondition,
}

/// How a caller asks for a put.
#[derive(Clone, Copy, Debug, PartialEq, Eq, Structural)]
pub enum RequestedMode {
    Overwrite,
    Create,
    /// Replaces a version, given by a tag or a number.
    Update { has_tag: bool, has_version: bool },
}

/// The kind of put that a caller asks for, if the cluster can carry it out. It keeps
/// neither tags nor versions.
pub open spec fn mode_for(request: RequestedMode) -> Result<PutMode, PutRefusal> {
    match request {
        RequestedMode::Overwrite => Ok(PutMode::Overwrite),
        RequestedMode::Create => Ok(PutMode::Create),
        RequestedMode::Update { has_tag, has_version } => if has_tag || has_version {
            Err(PutRefusal::Precondition)
        } else {
            Ok(PutMode::Overwrite)
        },
    }
}

/// The kind of put that a caller asks for. A cluster that is read-only refuses all.
pub fn put_opts(store: &ShardedObjectStore, request: RequestedMode) -> (r: Result<
    PutMode,
    PutRefusal,
>)
    ensures
        r == (if store@.read_only {
            Err(PutRefusal::ReadOnly)
        } else {
            mode_for(request)
        }),
{
    if store.is_read_only() {
        return Err(PutRefusal::ReadOnly);
    }
    match request {
        RequestedMode::Overwrite => Ok(PutMode::Overwrite),
        RequestedMode::Create => Ok(PutMode::Create),
        RequestedMode::Update { has_tag, has_version } => {
            if has_tag || has_version {
                Err(PutRefusal::Precondition)
            } else {
                Ok(PutMode::Overwrite)
            }
        },
    }
}

/// Whether a copy to a key is refused before its source is read.
pub fn copy_if_not_exists(store: &ShardedObjectStore, to: &str) -> (r: Result<(), PutRefusal>)
    ensures
        r == (if store@.read_only {
            Err(PutRefusal::ReadOnly)
        } else if store@.entries.contains_key(to@) {
            Err(PutRefusal::AlreadyExists)
        } else {
            Ok(())
        }),
{
    if store.is_read_only() {
        Err(PutRefusal::ReadOnly)
    } else if store.catalog().contains(to) {
        Err(PutRefusal::AlreadyExists)
    } else {
        Ok(())
    }
}

/// A put in progress.
pub struct PutState {
    pub mode: PutMode,
    /// The key in the catalog.
    pub key: Seq<char>,
    pub size: u64,
    /// The checksum to record.
    pub crc: Option<u32>,
    /// The shards that were chosen first.
    pub first: Seq<usize>,
    /// Whether the put has started over.
    pub second: bool,
    pub write: writes::WriteState,
}

/// Where on a shard a put writes: the path that is made of the key of a delete marker,
/// the key itself of any other object.
pub open spec fn put_location(mode: PutMode, key: Seq<char>) -> Seq<char> {
    if mode.marks() {
        path::normalized(key)
    } else {
        key
    }
}

/// The shards for a put.
pub open spec fn put_targets(c: store::ClusterState, mode: PutMode, hash: u32) -> Seq<usize> {
    if mode.marks() {
        placement::readable_of(c.shards, placement::all_ids(c.shards.len()))
    } else {
        placement::targets(c.shards, c.rf, hash)
    }
}

/// The write of a put on some shards.
pub open spec fn put_write(
    c: store::ClusterState,
    mode: PutMode,
    location: Seq<char>,
    targets: Seq<usize>,
) -> writes::WriteState {
    writes::write_begun(
        c,
        location,
        targets,
        if mode == PutMode::BestEffortMarker {
            1
        } else {
            c.min_writes
        },
        mode != PutMode::BestEffortMarker,
    )
}

/// A cluster with other catalog entries, which are unsaved.
pub open spec fn with_entries(c: store::ClusterState, entries: catalog::Entries) -> store::ClusterState {
    store::ClusterState { entries, dirty: true, ..c }
}

/// A cluster without the catalog entry of an object.
pub open spec fn entry_dropped(c: store::ClusterState, key: Seq<char>) -> store::ClusterState {
    store::ClusterState {
        entries: c.entries.remove(key),
        dirty: c.dirty || c.entries.contains_key(key),
        ..c
    }
}

/// The cluster and the put when it begins, or why it is refused. A put that must not
/// find the object takes its place in the catalog at once, without a checksum.
pub open spec fn put_begun(
    c: store::ClusterState,
    mode: PutMode,
    key: Seq<char>,
    location: Seq<char>,
    size: u64,
    crc: u32,
    hash: u32,
    now: Timestamp,
) -> (store::ClusterState, Result<PutState, PutRefusal>) {
    let targets = put_targets(c, mode, hash);
    if c.read_only && !mode.marks() {
        (c, Err(PutRefusal::ReadOnly))
    } else if targets.len() == 0 && mode != PutMode::CopyIfAbsent {
        (c, Err(PutRefusal::NoShards))
    } else if mode.must_be_new() && c.entries.contains_key(key) {
        (c, Err(PutRefusal::AlreadyExists))
    } else {
        let after = if mode.must_be_new() {
            with_entries(
                c,
                c.entries.insert(key, catalog::placed(targets, size, None, 0, now)),
            )
        } else {
            c
        };
        (
            after,
            Ok(
                PutState {
                    mode,
                    key,
                    size,
                    crc: if mode.marks() {
                        None
                    } else {
                        Some(crc)
                    },
                    first: targets,
                    second: false,
                    write: put_write(after, mode, location, targets),
                },
            ),
        )
    }
}

/// The cluster after a put was given up: what it put in the catalog is taken out.
/// An entry that a put which must find nothing would not have made itself stays.
pub open spec fn put_abandoned(c: store::ClusterState, mode: PutMode, key: Seq<char>) -> store::ClusterState {
    match mode {
        PutMode::Create => if c.entries.contains_key(key) && c.entries[key].crc32c is None {
            entry_dropped(c, key)
        } else {
            c
        },
        PutMode::CopyIfAbsent => entry_dropped(c, key),
        _ => c,
    }
}

/// The cluster, the put and what comes next after a write of it has failed.
pub open spec fn put_failed(
    c: store::ClusterState,
    p: PutState,
    error: error::ErrorSpec,
    cleanup: Seq<usize>,
    hash: u32,
    now: Timestamp,
) -> (store::ClusterState, PutState, writes::StepSpec) {
    if error is InsufficientWrites || p.second || !p.mode.starts_over() {
        (
            put_abandoned(c, p.mode, p.key),
            p,
            writes::StepSpec::Fail { error, cleanup },
        )
    } else {
        let after = writes::taken_offline(c, p.first, now);
        let again = placement::targets(after.shards, after.rf, hash);
        if again.len() == 0 || again == p.first {
            (
                put_abandoned(after, p.mode, p.key),
                p,
                writes::StepSpec::Fail {
                    error: error::ErrorSpec::NoShards,
                    cleanup: Seq::empty(),
                },
            )
        } else {
            let w = put_write(after, p.mode, p.write.key, again);
            (
                after,
                PutState { second: true, write: w, ..p },
                writes::StepSpec::Write(w.asked),
            )
        }
    }
}

/// The cluster, the put and what comes next after the shards that were asked have
/// answered. A put that succeeds is recorded in the catalog.
pub open spec fn put_reported(
    c: store::ClusterState,
    p: PutState,
    results: Seq<Option<Seq<char>>>,
    hash: u32,
    now: Timestamp,
) -> (store::ClusterState, PutState, writes::StepSpec) {
    let (after, w, step) = writes::write_reported(c, p.write, results, hash, now);
    let q = PutState { write: w, ..p };
    match step {
        writes::StepSpec::Write(_) => (after, q, step),
        writes::StepSpec::Done(placed) => (
            with_entries(
                after,
                after.entries.insert(p.key, catalog::placed(placed, p.size, p.crc, 0, now)),
            ),
            q,
            step,
        ),
        writes::StepSpec::Fail { error, cleanup } => put_failed(after, q, error, cleanup, hash, now),
    }
}

/// A put in progress.
#[derive(Debug)]
pub struct PutJob {
    mode: PutMode,
    key: String,
    size: u64,
    crc: Option<u32>,
    first: Vec<ShardId>,
    second: bool,
    write: WriteJob,
}

impl View for PutJob {
    type V = PutState;

    closed spec fn view(&self) -> PutState {
        PutState {
            mode: self.mode,
            key: self.key@,
            size: self.size,
            crc: self.crc,
            first: self.first@,
            second: self.second,
            write: self.write@,
        }
    }
}

fn is_marking(mode: PutMode) -> (r: bool)
    ensures
        r == mode.marks(),
{
    match mode {
        PutMode::StrictMarker | PutMode::BestEffortMarker => true,
        _ => false,
    }
}

fn needs_absence(mode: PutMode) -> (r: bool)
    ensures
        r == mode.must_be_new(),
{
    match mode {
        PutMode::Create | PutMode::CopyIfAbsent => true,
        _ => false,
    }
}

fn begin_write(
    store: &ShardedObjectStore,
    mode: PutMode,
    location: &str,
    targets: &[ShardId],
) -> (w: WriteJob)
    ensures
        w@ == put_write(store@, mode, location@, targets@),
{
    let best_effort = mode == PutMode::BestEffortMarker;
    let min_required: usize = if best_effort {
        1
    } else {
        store.min_writes()
    };
    WriteJob::begin(store, location, targets, min_required, !best_effort)
}

impl PutJob {
    /// Begins a put of some bytes.
    pub fn begin(
        store: &mut ShardedObjectStore,
        mode: PutMode,
        key: &str,
        data: &[u8],
        now: Timestamp,
    ) -> (r: Result<PutJob, PutRefusal>)
        ensures
            (final(store)@, job_view(r)) == put_begun(
                old(store)@,
                mode,
                key@,
                put_location(mode, key@),
                data@.len() as u64,
                digest::crc32c_of(data@),
                placement::key_hash(put_location(mode, key@)),
                now,
            ),
            store::valid(old(store)@) ==> store::valid(final(store)@),
    {
        let crc: u32 = crc32c(data);
        let location = if is_marking(mode) {
            path_from(key)
        } else {
            key.to_owned()
        };
        let hash: u32 = crc32c(location.as_str().as_bytes());
        Self::begin_with(store, mode, key, location.as_str(), data.len() as u64, crc, hash, now)
    }

    /// Begins a put of an object of a given size and checksum, given where on a shard
    /// it goes and the hash of that.
    pub fn begin_with(
        store: &mut ShardedObjectStore,
        mode: PutMode,
        key: &str,
        location: &str,
        size: u64,
        crc: u32,
        hash: u32,
        now: Timestamp,
    ) -> (r: Result<PutJob, PutRefusal>)
        ensures
            (final(store)@, job_view(r)) == put_begun(
                old(store)@,
                mode,
                key@,
                location@,
                size,
                crc,
                hash,
                now,
            ),
            store::valid(old(store)@) ==> store::valid(final(store)@),
    {
        if store.is_read_only() && !is_marking(mode) {
            return Err(PutRefusal::ReadOnly);
        }
        let targets = if is_marking(mode) {
            store.readable_shards()
        } else {
            store.targets_for_hash(hash)
        };
        if targets.len() == 0 && mode != PutMode::CopyIfAbsent {
            return Err(PutRefusal::NoShards);
        }
        if needs_absence(mode) {
            if store.catalog().contains(key) {
                return Err(PutRefusal::AlreadyExists);
            }
            store.catalog_mut().try_insert_at(
                key.to_owned(),
                copy_ids(targets.as_slice()),
                size,
                now,
            );
        }
        let write = begin_write(store, mode, location, targets.as_slice());
        Ok(
            PutJob {
                mode,
                key: key.to_owned(),
                size,
                crc: if is_marking(mode) {
                    None
                } else {
                    Some(crc)
                },
                first: targets,
                second: false,
                write,
            },
        )
    }

    /// The shards to write to.
    pub fn asked(&self) -> (r: &Vec<ShardId>)
        ensures
            r@ == self@.write.asked,
    {
        self.write.asked()
    }

    fn abandon(&self, store: &mut ShardedObjectStore)
        ensures
            final(store)@ == put_abandoned(old(store)@, self@.mode, self@.key),
            store::valid(old(store)@) ==> store::valid(final(store)@),
    {
        match self.mode {
            PutMode::Create => {
                let own = match store.catalog().get(self.key.as_str()) {
                    Some(e) => e.crc32c.is_none(),
                    None => false,
                };
                if own {
                    store.catalog_mut().remove(self.key.as_str());
                }
            },
            PutMode::CopyIfAbsent => {
                store.catalog_mut().remove(self.key.as_str());
            },
            _ => {},
        }
    }

    /// Takes what the shards that were asked have answered, in that order, given the
    /// hash of the key: nothing for a success, or an error in words.
    pub fn report_for_hash(
        &mut self,
        store: &mut ShardedObjectStore,
        results: &Vec<Option<String>>,
        hash: u32,
        now: Timestamp,
    ) -> (step: WriteStep)
        requires
            results.len() == old(self)@.write.asked.len(),
        ensures
            (final(store)@, final(self)@, step@) == put_reported(
                old(store)@,
                old(self)@,
                writes::answers(results@),
                hash,
                now,
            ),
            store::valid(old(store)@) ==> store::valid(final(store)@),
    {
        let step = self.write.report_for_hash(store, results, hash, now);
        match step {
            WriteStep::Write(ids) => WriteStep::Write(ids),
            WriteStep::Done(ids) => {
                store.catalog_mut().put_at(
                    self.key.clone(),
                    copy_ids(ids.as_slice()),
                    self.size,
                    self.crc,
                    0,
                    now,
                );
                WriteStep::Done(ids)
            },
            WriteStep::Fail { error, cleanup } => {
                let insufficient = match &error {
                    ShardError::InsufficientWrites { .. } => true,
                    _ => false,
                };
                if insufficient || self.second || !self.mode.is_announced() {
                    self.abandon(store);
                    return WriteStep::Fail { error, cleanup };
                }
                store.take_offline(self.first.as_slice(), now);
                let again = store.targets_for_hash(hash);
                if again.len() == 0 || ids_eq(again.as_slice(), self.first.as_slice()) {
                    self.abandon(store);
                    let none: Vec<ShardId> = Vec::new();
                    assert(none@ =~= Seq::<usize>::empty());
                    return WriteStep::Fail { error: ShardError::NoShards, cleanup: none };
                }
                self.second = true;
                self.write = begin_write(
                    store,
                    self.mode,
                    self.write.key(),
                    again.as_slice(),
                );
                WriteStep::Write(copy_ids(self.write.asked().as_slice()))
            },
        }
    }

    /// Takes what the shards that were asked have answered, in that order: nothing
    /// for a success, or an error in words.
    pub fn report(
        &mut self,
        store: &mut ShardedObjectStore,
        results: &Vec<Option<String>>,
        now: Timestamp,
    ) -> (step: WriteStep)
        requires
            results.len() == old(self)@.write.asked.len(),
        ensures
            (final(store)@, final(self)@, step@) == put_reported(
                old(store)@,
                old(self)@,
                writes::answers(results@),
                placement::key_hash(old(self)@.write.key),
                now,
            ),
            store::valid(old(store)@) ==> store::valid(final(store)@),
    {
        let hash: u32 = crc32c(self.write.key().as_bytes());
        self.report_for_hash(store, results, hash, now)
    }
}

/// What beginning a put returned, in the terms of the model.
pub open spec fn job_view(r: Result<PutJob, PutRefusal>) -> Result<PutState, PutRefusal> {
    match r {
        Ok(j) => Ok(j@),
        Err(e) => Err(e),
    }
}

// -- Laws -------------------------------------------------------------------

/// A put that succeeds is in the catalog with the shards that took it, its size and
/// its checksum, and these are as many as a put needs.
pub proof fn a_put_that_succeeds_is_recorded(
    c: store::ClusterState,
    p: PutState,
    results: Seq<Option<Seq<char>>>,
    hash: u32,
    now: Timestamp,
)
    ensures
        put_reported(c, p, results, hash, now).2 matches writes::StepSpec::Done(placed) ==> ({
            let after = put_reported(c, p, results, hash, now).0;
            &&& after.entries.contains_key(p.key)
            &&& after.entries[p.key] == catalog::placed(placed, p.size, p.crc, 0, now)
            &&& placed.len() >= p.write.min_required
            &&& after.dirty
            &&& forall|k: Seq<char>|
                k != p.key ==> (#[trigger] after.entries.contains_key(k) == c.entries.contains_key(k)
                    && (c.entries.contains_key(k) ==> after.entries[k] == c.entries[k]))
        }),
{
    writes::a_retry_goes_to_other_shards(c, p.write, results, hash, now);
}

/// A put that fails leaves the catalog as it was before the put: other entries are
/// untouched, an object that was there keeps its entry, and one that was not has
/// none.
pub proof fn a_put_that_fails_leaves_the_catalog_as_it_was(
    before: store::ClusterState,
    mode: PutMode,
    key: Seq<char>,
    location: Seq<char>,
    size: u64,
    crc: u32,
    hash: u32,
    now: Timestamp,
    later: store::ClusterState,
    p: PutState,
    results: Seq<Option<Seq<char>>>,
)
    requires
        put_begun(before, mode, key, location, size, crc, hash, now).1 is Ok,
        later.entries == put_begun(before, mode, key, location, size, crc, hash, now).0.entries,
        p.mode == mode,
        p.key == key,
        put_reported(later, p, results, hash, now).2 is Fail,
    ensures
        put_reported(later, p, results, hash, now).0.entries == before.entries,
{
    writes::a_retry_goes_to_other_shards(later, p.write, results, hash, now);
    let (after, w, step) = writes::write_reported(later, p.write, results, hash, now);
    writes::lemma_taken_offline(after, p.first, now);
    if mode.must_be_new() {
        assert(later.entries.remove(key) =~= before.entries);
    }
}

/// A put is refused exactly for these reasons: the cluster is read-only, and the put
/// writes no delete marker; no shard can take it, and it is not a copy; or it asks for
/// the object to be absent, and the catalog has it. A put that overwrites never fails
/// because the object is there.
pub proof fn a_put_is_refused_only_for_cause(
    c: store::ClusterState,
    mode: PutMode,
    key: Seq<char>,
    location: Seq<char>,
    size: u64,
    crc: u32,
    hash: u32,
    now: Timestamp,
)
    ensures
        ({
            let r = put_begun(c, mode, key, location, size, crc, hash, now).1;
            let there = c.entries.contains_key(key);
            let homeless = put_targets(c, mode, hash).len() == 0;
            match mode {
                PutMode::Overwrite => {
                    &&& r == Err::<PutState, PutRefusal>(PutRefusal::ReadOnly) <==> c.read_only
                    &&& r == Err::<PutState, PutRefusal>(PutRefusal::NoShards) <==> !c.read_only
                        && homeless
                    &&& r is Ok <==> !c.read_only && !homeless
                },
                PutMode::Create => {
                    &&& r == Err::<PutState, PutRefusal>(PutRefusal::ReadOnly) <==> c.read_only
                    &&& r == Err::<PutState, PutRefusal>(PutRefusal::NoShards) <==> !c.read_only
                        && homeless
                    &&& r == Err::<PutState, PutRefusal>(PutRefusal::AlreadyExists)
                        <==> !c.read_only && !homeless && there
                    &&& r is Ok <==> !c.read_only && !homeless && !there
                },
                PutMode::CopyIfAbsent => {
                    &&& r == Err::<PutState, PutRefusal>(PutRefusal::ReadOnly) <==> c.read_only
                    &&& r == Err::<PutState, PutRefusal>(PutRefusal::AlreadyExists)
                        <==> !c.read_only && there
                    &&& r is Ok <==> !c.read_only && !there
                },
                PutMode::StrictMarker | PutMode::BestEffortMarker => {
                    &&& r == Err::<PutState, PutRefusal>(PutRefusal::NoShards) <==> homeless
                    &&& r is Ok <==> !homeless
                },
            }
        }),
{
}

/// A put that has begun is of the object that was given, and needs as many shards to
/// take it as the cluster asks for; a delete marker that one shard may take needs one.
/// It goes to distinct shards that take writes: a delete marker to all of them, an
/// object to as many as copies are kept. Only a put that must find nothing touches the
/// catalog, in which it takes the place of the object at once, without a checksum.
pub proof fn a_put_that_has_begun_goes_to_its_shards(
    c: store::ClusterState,
    mode: PutMode,
    key: Seq<char>,
    location: Seq<char>,
    size: u64,
    crc: u32,
    hash: u32,
    now: Timestamp,
)
    requires
        c.shards.len() <= usize::MAX,
    ensures
        put_begun(c, mode, key, location, size, crc, hash, now).1 matches Ok(p) ==> ({
            let after = put_begun(c, mode, key, location, size, crc, hash, now).0;
            let works = |id: usize|
                id < c.shards.len() && (c.shards[id as int].health == store::ShardHealth::Healthy
                    || c.shards[id as int].health == store::ShardHealth::Degraded);
            let marks = mode == PutMode::StrictMarker || mode == PutMode::BestEffortMarker;
            let fresh = mode == PutMode::Create || mode == PutMode::CopyIfAbsent;
            let w = p.write;
            &&& p.mode == mode && p.key == key && p.size == size && !p.second
            &&& p.crc == if marks {
                None
            } else {
                Some(crc)
            }
            &&& w.key == location && !w.retried && w.placed.len() == 0 && w.errors.len() == 0
            &&& mode == PutMode::BestEffortMarker ==> w.min_required == 1 && !w.cleanup_on_fail
            &&& mode != PutMode::BestEffortMarker ==> w.min_required == c.min_writes
                && w.cleanup_on_fail
            &&& w.asked == p.first && w.targets == p.first && w.asked.no_duplicates()
            &&& forall|i: int| 0 <= i < w.asked.len() ==> works(#[trigger] w.asked[i])
            &&& marks ==> forall|id: usize| works(id) ==> #[trigger] w.asked.contains(id)
            &&& !marks ==> w.asked.len() <= c.rf && (w.asked.len() < c.rf ==> forall|id: usize|
                works(id) ==> #[trigger] w.asked.contains(id))
            &&& !fresh ==> after == c
            &&& fresh ==> {
                let e = after.entries[key];
                &&& !c.entries.contains_key(key)
                &&& after.entries == c.entries.insert(key, e)
                &&& after == (store::ClusterState { entries: after.entries, dirty: true, ..c })
                &&& e.shards == w.asked && e.size == size && e.crc32c is None && e.meta_len == 0
                    && e.updated == now
            }
        }),
{
    if let Ok(p) = put_begun(c, mode, key, location, size, crc, hash, now).1 {
        let t = put_targets(c, mode, hash);
        let n = c.shards.len();
        let all = placement::all_ids(n);
        let readable = |id: usize| placement::is_readable(c.shards, id);
        let writable = |id: usize| placement::takes_writes(c.shards, id);
        assert(all.no_duplicates());
        placement::lemma_filter_distinct(all, readable);
        placement::lemma_filter_distinct(all, writable);
        placement::targets_are_distinct_writable_shards(c.shards, c.rf, hash);
        assert forall|i: int| 0 <= i < t.len() implies writable(#[trigger] t[i]) by {
            assert(t.contains(t[i]));
        }
        assert forall|id: usize| id < n implies all.contains(id) by {
            assert(all[id as int] == id);
        }
        lemma_all_exist(t, n);
        if !mode.marks() && t.len() < c.rf {
            assert(t == placement::writable_of(c.shards, all));
        }
    }
}

proof fn lemma_all_exist(ids: Seq<usize>, n: nat)
    requires
        forall|i: int| 0 <= i < ids.len() ==> (#[trigger] ids[i]) < n,
    ensures
        writes::existing(n, ids) == ids,
    decreases ids.len(),
{
    reveal(Seq::filter);
    let pred = |id: usize| id < n;
    if ids.len() > 0 {
        let head = ids.drop_last();
        assert forall|i: int| 0 <= i < head.len() implies (#[trigger] head[i]) < n by {
            assert(head[i] == ids[i]);
        }
        lemma_all_exist(head, n);
        assert(ids[ids.len() - 1] < n);
        assert(ids =~= head.push(ids.last()));
    } else {
        assert(ids.filter(pred) =~= ids);
    }
}

/// A put of an object that no shard has taken starts over once, if another shard than
/// those that were chosen first takes writes, on such shards alone. Otherwise it finds
/// no shard. Neither a copy nor a delete marker starts over, nor a put that too few
/// shards have taken.
pub proof fn a_put_that_no_shard_took_starts_over(
    c: store::ClusterState,
    p: PutState,
    path: Seq<char>,
    errors: Seq<Seq<char>>,
    required: nat,
    actual: nat,
    cleanup: Seq<usize>,
    hash: u32,
    now: Timestamp,
)
    requires
        c.shards.len() <= usize::MAX,
        c.rf >= 1,
        p.first.len() > 0,
        forall|i: int| 0 <= i < p.first.len() ==> (#[trigger] p.first[i]) < c.shards.len(),
    ensures
        ({
            let error = error::ErrorSpec::AllReplicasFailed { path, errors };
            let (after, next, step) = put_failed(c, p, error, Seq::empty(), hash, now);
            let other = |id: usize|
                id < c.shards.len() && !p.first.contains(id)
                    && c.shards[id as int].health.writable();
            let elsewhere = exists|id: usize| #[trigger] other(id);
            let again = !p.second && (p.mode == PutMode::Overwrite || p.mode == PutMode::Create);
            &&& again && elsewhere ==> (step matches writes::StepSpec::Write(ids) && ids.len() > 0
                && next.second && next.write.asked == ids && next.write.key == p.write.key
                && next.write.min_required == c.min_writes && !next.write.retried
                && next.write.placed.len() == 0 && next.key == p.key && next.size == p.size
                && next.crc == p.crc && next.mode == p.mode && after.entries == c.entries
                && forall|i: int|
                0 <= i < ids.len() ==> other(#[trigger] ids[i]))
            &&& again && !elsewhere ==> (step matches writes::StepSpec::Fail { error: e, cleanup: left }
                && e is NoShards && left.len() == 0)
            &&& !again ==> step == (writes::StepSpec::Fail { error, cleanup: Seq::empty() })
        }),
        ({
            let error = error::ErrorSpec::InsufficientWrites { path, required, actual, errors };
            put_failed(c, p, error, cleanup, hash, now).2 == (writes::StepSpec::Fail {
                error,
                cleanup,
            })
        }),
{
    let error = error::ErrorSpec::AllReplicasFailed { path, errors };
    let other = |id: usize|
        id < c.shards.len() && !p.first.contains(id) && c.shards[id as int].health.writable();
    let after = writes::taken_offline(c, p.first, now);
    writes::lemma_taken_offline(c, p.first, now);
    writes::lemma_offline_shards(c, p.first, now);
    placement::targets_are_distinct_writable_shards(after.shards, after.rf, hash);
    let again = placement::targets(after.shards, after.rf, hash);
    assert forall|i: int| 0 <= i < again.len() implies other(#[trigger] again[i]) by {
        assert(placement::takes_writes(after.shards, again[i]));
        let s = after.shards[again[i] as int];
        assert(s.health.writable());
    }
    assert forall|i: int| 0 <= i < again.len() implies (#[trigger] again[i]) < after.shards.len() by {
        assert(other(again[i]));
    }
    lemma_all_exist(again, after.shards.len());
    if again.len() > 0 {
        assert(other(again[0]));
        assert(p.first.contains(p.first[0]));
        assert(again != p.first);
    }
    if exists|id: usize| #[trigger] other(id) {
        let id = choose|id: usize| #[trigger] other(id);
        let s = after.shards[id as int];
        assert(s == c.shards[id as int]);
        let all = placement::all_ids(after.shards.len());
        let pred = |id: usize| placement::takes_writes(after.shards, id);
        assert(all[id as int] == id);
        all.lemma_filter_contains(pred, id as int);
        assert(placement::writable_of(after.shards, all).contains(id));
        assert(again.len() > 0);
    }
}

/// A caller who asks for a version gets none, since the cluster keeps neither tags nor
/// versions. Any other update overwrites. Nothing but a request to create asks for the
/// object to be absent.
pub proof fn only_a_request_to_create_asks_for_absence(request: RequestedMode)
    ensures
        mode_for(request) == Ok::<PutMode, PutRefusal>(PutMode::Create) <==> request
            == RequestedMode::Create,
        mode_for(request) is Err <==> (request matches RequestedMode::Update {
            has_tag,
            has_version,
        } && (has_tag || has_version)),
        mode_for(request) matches Err(e) ==> e == PutRefusal::Precondition,
        mode_for(request) matches Ok(m) ==> m == PutMode::Create || m == PutMode::Overwrite,
{
}

/// Only puts of whole objects are announced, whether they overwrite or create: neither a
/// copy nor a delete marker is.
pub proof fn a_put_of_an_object_is_announced(mode: PutMode)
    ensures
        mode.announced() <==> mode == PutMode::Overwrite || mode == PutMode::Create,
        mode.marks() ==> !mode.announced() && !mode.must_be_new(),
{
}

/// An object is put at its key, and a delete marker at the path that is made of its key.
pub proof fn only_a_marker_is_put_at_another_path(mode: PutMode, key: Seq<char>)
    ensures
        mode == PutMode::StrictMarker || mode == PutMode::BestEffortMarker ==> put_location(
            mode,
            key,
        ) == path::normalized(key),
        mode != PutMode::StrictMarker && mode != PutMode::BestEffortMarker ==> put_location(
            mode,
            key,
        ) == key,
{
}

} // verus!
