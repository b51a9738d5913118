//! Putting an object along with its metadata.

use vstd::prelude::*;
use vstd::string::*;
use crate::catalog;
use crate::digest;
use crate::digest::{crc32c, RunningCrc};
use crate::ids;
use crate::ids::{copy_ids, ShardId};
use crate::metadata;
use crate::metadata::{meta_sidecar_path, meta_to_attributes, RawHandle, RawRefRegistry, ShardKind};
use crate::placement;
use crate::put;
use crate::store;
use crate::store::ShardedObjectStore;
use crate::text;
use crate::text::number;
use crate::time::Timestamp;
use crate::tlv;
use crate::tlv::decode_metadata;
use crate::writes;
use crate::writes::sort_answers;

verus! {

// -- How one shard is written -----------------------------------------------

/// How an object and its metadata are written to a shard.
pub enum ShardWrite {
    /// To its raw store, together.
    Raw(RawHandle),
    /// With attributes.
    Attributes(object_store::Attributes),
    /// By itself, and the metadata in a sidecar if there is any.
    Sidecar(Option<String>),
    /// By itself, without metadata.
    Plain,
    /// Not at all, with the reason in words.
    Missing(String),
}

/// How an object and its metadata are written to a shard.
pub enum WriteSpec {
    Raw(usize),
    Attributes(Map<metadata::AttributeKey, Seq<char>>),
    Sidecar(Option<Seq<char>>),
    Plain,
    Missing(Seq<char>),
}

impl View for ShardWrite {
    type V = WriteSpec;

    open spec fn view(&self) -> WriteSpec {
        match *self {
            ShardWrite::Raw(h) => WriteSpec::Raw(h),
            ShardWrite::Attributes(a) => WriteSpec::Attributes(metadata::attributes_of(a)),
            ShardWrite::Sidecar(p) => WriteSpec::Sidecar(text::opt_view(p)),
            ShardWrite::Plain => WriteSpec::Plain,
            ShardWrite::Missing(m) => WriteSpec::Missing(m@),
        }
    }
}

/// The attributes that stand for the metadata of some bytes.
pub open spec fn attributes_for(meta: Seq<u8>) -> Map<metadata::AttributeKey, Seq<char>> {
    metadata::attributes_from(tlv::decoded(meta))
}

/// How an object and its metadata are put to a shard.
pub open spec fn shard_put(
    c: store::ClusterState,
    refs: metadata::Registry,
    shard: usize,
    location: Seq<char>,
    meta: Seq<u8>,
) -> WriteSpec {
    let name = "shard "@ + text::decimal(shard as nat);
    match refs.kind_of(shard) {
        ShardKind::Raw => match refs.raw(shard) {
            Some(h) => WriteSpec::Raw(h),
            None => WriteSpec::Missing(name + ": no raw ref"@),
        },
        ShardKind::S3Like => if shard < c.shards.len() {
            WriteSpec::Attributes(attributes_for(meta))
        } else {
            WriteSpec::Missing(name + ": no store"@)
        },
        ShardKind::Sidecar => if shard < c.shards.len() {
            WriteSpec::Sidecar(
                if meta.len() > 0 {
                    Some(metadata::sidecar_of(location))
                } else {
                    None
                },
            )
        } else {
            WriteSpec::Missing(name + ": no store"@)
        },
    }
}

fn shard_text(shard: ShardId, rest: &str) -> (s: String)
    ensures
        s@ == "shard "@ + text::decimal(shard as nat) + rest@,
{
    let mut s = "shard ".to_owned();
    s.append(number(shard as u64).as_str());
    s.append(rest);
    s
}

/// How to put an object and its metadata to a shard.
pub fn try_put_shard(
    store: &ShardedObjectStore,
    refs: &RawRefRegistry,
    shard_id: ShardId,
    location: &str,
    metadata: &[u8],
) -> (r: ShardWrite)
    ensures
        r@ == shard_put(store@, refs@, shard_id, location@, metadata@),
{
    match refs.kind(shard_id) {
        ShardKind::Raw => match refs.get(shard_id) {
            Some(h) => ShardWrite::Raw(h),
            None => ShardWrite::Missing(shard_text(shard_id, ": no raw ref")),
        },
        ShardKind::S3Like => {
            if shard_id < store.shard_count() {
                ShardWrite::Attributes(meta_to_attributes(&decode_metadata(metadata)))
            } else {
                ShardWrite::Missing(shard_text(shard_id, ": no store"))
            }
        },
        ShardKind::Sidecar => {
            if shard_id < store.shard_count() {
                if metadata.len() > 0 {
                    ShardWrite::Sidecar(Some(meta_sidecar_path(location)))
                } else {
                    ShardWrite::Sidecar(None)
                }
            } else {
                ShardWrite::Missing(shard_text(shard_id, ": no store"))
            }
        },
    }
}

/// How an object and its metadata are copied to a shard. Without metadata, or to a raw
/// shard whose store is not at hand, the object goes by itself.
pub open spec fn shard_copy(
    refs: metadata::Registry,
    shard: usize,
    location: Seq<char>,
    meta: Seq<u8>,
) -> WriteSpec {
    if meta.len() == 0 {
        WriteSpec::Plain
    } else {
        match refs.kind_of(shard) {
            ShardKind::Raw => match refs.raw(shard) {
                Some(h) => WriteSpec::Raw(h),
                None => WriteSpec::Plain,
            },
            ShardKind::S3Like => WriteSpec::Attributes(attributes_for(meta)),
            ShardKind::Sidecar => WriteSpec::Sidecar(Some(metadata::sidecar_of(location))),
        }
    }
}

/// How to copy an object and its metadata to a shard, with what is known of the shards,
/// if anything is.
pub fn write_with_meta_to_shard(
    refs: Option<&RawRefRegistry>,
    target_shard: ShardId,
    location: &str,
    metadata: &[u8],
) -> (r: ShardWrite)
    ensures
        r@ == (match refs {
            Some(refs) => shard_copy(refs@, target_shard, location@, metadata@),
            None => WriteSpec::Plain,
        }),
{
    let refs = match refs {
        Some(refs) => refs,
        None => {
            return ShardWrite::Plain;
        },
    };
    if metadata.len() == 0 {
        return ShardWrite::Plain;
    }
    match refs.kind(target_shard) {
        ShardKind::Raw => match refs.get(target_shard) {
            Some(h) => ShardWrite::Raw(h),
            None => ShardWrite::Plain,
        },
        ShardKind::S3Like => ShardWrite::Attributes(
            meta_to_attributes(&decode_metadata(metadata)),
        ),
        ShardKind::Sidecar => ShardWrite::Sidecar(Some(meta_sidecar_path(location))),
    }
}

// -- The put ----------------------------------------------------------------

/// A put in progress.
pub struct MetaPutState {
    pub key: Seq<char>,
    /// The shards that were chosen first.
    pub targets: Seq<usize>,
    /// The shards that are being written to.
    pub asked: Seq<usize>,
    /// Whether the object is streamed from a file, which only raw stores take.
    pub streamed: bool,
    pub retried: bool,
    pub placed: Seq<usize>,
    /// The last error, in words.
    pub last_error: Option<Seq<char>>,
    pub size: u64,
    pub crc: u32,
    pub meta_len: u16,
}

/// The shards that are written to, of some.
pub open spec fn writable_to(refs: metadata::Registry, streamed: bool, ids: Seq<usize>) -> Seq<usize> {
    if streamed {
        ids.filter(|id: usize| refs.raw(id) is Some)
    } else {
        ids
    }
}

/// A put when it begins.
pub open spec fn meta_begun(
    c: store::ClusterState,
    refs: metadata::Registry,
    key: Seq<char>,
    streamed: bool,
    size: u64,
    crc: u32,
    meta_len: u16,
    hash: u32,
) -> MetaPutState {
    let targets = placement::targets(c.shards, c.rf, hash);
    MetaPutState {
        key,
        targets,
        asked: writable_to(refs, streamed, targets),
        streamed,
        retried: false,
        placed: Seq::empty(),
        last_error: None,
        size,
        crc,
        meta_len,
    }
}

/// What comes next in a put.
pub enum StepSpec {
    Write(Seq<usize>),
    Done,
    Failed(Seq<char>),
    NotFound,
    Insufficient { required: nat, actual: nat, cleanup: Seq<usize> },
}

/// What comes next in a put.
#[derive(Debug)]
pub enum MetaPutStep {
    /// Write to these shards, and report what each of them answers.
    Write(Vec<ShardId>),
    /// The put succeeded, and is announced.
    Done,
    /// No shard took the object; the last error, in words.
    Failed(String),
    /// There was no shard to write to.
    NotFound,
    /// Too few shards took the object. Delete it from the `cleanup` shards.
    Insufficient { required: usize, actual: usize, cleanup: Vec<ShardId> },
}

impl View for MetaPutStep {
    type V = StepSpec;

    open spec fn view(&self) -> StepSpec {
        match *self {
            MetaPutStep::Write(ids) => StepSpec::Write(ids@),
            MetaPutStep::Done => StepSpec::Done,
            MetaPutStep::Failed(m) => StepSpec::Failed(m@),
            MetaPutStep::NotFound => StepSpec::NotFound,
            MetaPutStep::Insufficient { required, actual, cleanup } => StepSpec::Insufficient {
                required: required as nat,
                actual: actual as nat,
                cleanup: cleanup@,
            },
        }
    }
}

/// The last error among answers, or else an earlier one.
pub open spec fn last_error(results: Seq<Option<Seq<char>>>, earlier: Option<Seq<char>>) -> Option<
    Seq<char>,
>
    decreases results.len(),
{
    if results.len() == 0 {
        earlier
    } else if results.last() is Some {
        results.last()
    } else {
        last_error(results.drop_last(), earlier)
    }
}

/// The cluster and the end of a put. One that enough shards took is recorded.
pub open spec fn meta_ended(c: store::ClusterState, m: MetaPutState, now: Timestamp) -> (
    store::ClusterState,
    StepSpec,
) {
    if m.placed.len() == 0 {
        (
            c,
            match m.last_error {
                Some(e) => StepSpec::Failed(e),
                None => StepSpec::NotFound,
            },
        )
    } else if m.placed.len() < c.min_writes {
        (
            c,
            StepSpec::Insufficient {
                required: c.min_writes,
                actual: m.placed.len(),
                cleanup: writes::orphans(c, m.key, m.placed),
            },
        )
    } else {
        (
            put::with_entries(
                c,
                c.entries.insert(
                    m.key,
                    catalog::placed(m.placed, m.size, Some(m.crc), m.meta_len, now),
                ),
            ),
            StepSpec::Done,
        )
    }
}

/// The cluster, the put and what comes next, after the shards that were asked have
/// answered. If all have failed, others are tried, once.
pub open spec fn meta_reported(
    c: store::ClusterState,
    refs: metadata::Registry,
    m: MetaPutState,
    results: Seq<Option<Seq<char>>>,
    hash: u32,
    now: Timestamp,
) -> (store::ClusterState, MetaPutState, StepSpec) {
    let answered = MetaPutState {
        placed: m.placed + writes::successes(m.asked, results),
        last_error: last_error(results, m.last_error),
        ..m
    };
    if m.retried {
        let (after, step) = meta_ended(c, answered, now);
        (after, answered, step)
    } else {
        let (marked, retry) = writes::failures_marked(
            c,
            answered.placed,
            writes::failures(m.asked, results),
            m.targets,
            hash,
            now,
        );
        if answered.placed.len() == 0 && retry.len() > 0 {
            let asked = writable_to(refs, m.streamed, retry);
            (marked, MetaPutState { asked, retried: true, ..answered }, StepSpec::Write(asked))
        } else {
            let (after, step) = meta_ended(marked, answered, now);
            (after, answered, step)
        }
    }
}

/// A put in progress.
#[derive(Debug)]
pub struct MetaPutJob {
    key: String,
    targets: Vec<ShardId>,
    asked: Vec<ShardId>,
    streamed: bool,
    retried: bool,
    placed: Vec<ShardId>,
    last_error: Option<String>,
    size: u64,
    crc: u32,
    meta_len: u16,
}

impl View for MetaPutJob {
    type V = MetaPutState;

    closed spec fn view(&self) -> MetaPutState {
        MetaPutState {
            key: self.key@,
            targets: self.targets@,
            asked: self.asked@,
            streamed: self.streamed,
            retried: self.retried,
            placed: self.placed@,
            last_error: text::opt_view(self.last_error),
            size: self.size,
            crc: self.crc,
            meta_len: self.meta_len,
        }
    }
}

fn keep_writable(refs: &RawRefRegistry, streamed: bool, wanted: &[ShardId]) -> (r: Vec<ShardId>)
    ensures
        r@ == writable_to(refs@, streamed, wanted@),
{
    if !streamed {
        return copy_ids(wanted);
    }
    let ghost pred = |id: usize| refs@.raw(id) is Some;
    let mut r: Vec<ShardId> = Vec::new();
    let mut i: usize = 0;
    proof {
        placement::lemma_filter_none(wanted@, pred);
    }
    while i < wanted.len()
        invariant
            i <= wanted.len(),
            pred == (|id: usize| refs@.raw(id) is Some),
            r@ == wanted@.take(i as int).filter(pred),
        decreases wanted.len() - i,
    {
        proof {
            placement::lemma_filter_step(wanted@, i as int, pred);
        }
        if refs.get(wanted[i]).is_some() {
            r.push(wanted[i]);
        }
        i = i + 1;
    }
    assert(wanted@.take(i as int) =~= wanted@);
    r
}

fn find_last_error(results: &Vec<Option<String>>, earlier: &Option<String>) -> (r: Option<String>)
    ensures
        text::opt_view(r) == last_error(writes::answers(results@), text::opt_view(*earlier)),
{
    let ghost all = writes::answers(results@);
    let mut i: usize = results.len();
    assert(all.take(i as int) =~= all);
    while i > 0
        invariant
            i <= results.len(),
            all == writes::answers(results@),
            last_error(all.take(i as int), text::opt_view(*earlier)) == last_error(
                all,
                text::opt_view(*earlier),
            ),
        decreases i,
    {
        assert(all.take(i as int).last() == text::opt_view(results@[i - 1]));
        assert(all.take(i as int).drop_last() =~= all.take(i - 1));
        if let Some(m) = &results[i - 1] {
            return Some(m.clone());
        }
        i = i - 1;
    }
    match earlier {
        Some(m) => Some(m.clone()),
        None => None,
    }
}

/// A put that a read-only cluster refuses, in the terms of the model.
pub open spec fn job_view(r: Option<MetaPutJob>) -> Option<MetaPutState> {
    match r {
        Some(j) => Some(j@),
        None => None,
    }
}

/// Begins a put of an object along with its metadata. A cluster that is read-only
/// refuses it.
pub fn put_with_meta(
    store: &ShardedObjectStore,
    refs: &RawRefRegistry,
    key: &str,
    payload: &[u8],
    metadata: &[u8],
) -> (r: Option<MetaPutJob>)
    ensures
        job_view(r) == (if store@.read_only {
            None
        } else {
            Some(
                meta_begun(
                    store@,
                    refs@,
                    key@,
                    false,
                    payload@.len() as u64,
                    digest::crc32c_of(payload@),
                    metadata@.len() as u16,
                    placement::key_hash(key@),
                ),
            )
        }),
{
    if store.is_read_only() {
        return None;
    }
    let crc: u32 = crc32c(payload);
    let hash: u32 = crc32c(key.as_bytes());
    Some(
        MetaPutJob::begin_for_hash(
            store,
            refs,
            key,
            false,
            payload.len() as u64,
            crc,
            metadata.len() as u16,
            hash,
        ),
    )
}

/// The shards that a put of an object goes to, if all of them are raw: then the object
/// can be streamed from a file.
pub open spec fn all_raw(refs: metadata::Registry, targets: Seq<usize>) -> bool {
    forall|i: int|
        0 <= i < targets.len() ==> refs.kind_of(#[trigger] targets[i]) == ShardKind::Raw
}

/// Whether an object can be streamed from a file, given the hash of its key.
pub fn can_stream_for_hash(store: &ShardedObjectStore, refs: &RawRefRegistry, hash: u32) -> (r: bool)
    ensures
        r == all_raw(refs@, placement::targets(store@.shards, store@.rf, hash)),
{
    let targets = store.targets_for_hash(hash);
    let mut i: usize = 0;
    while i < targets.len()
        invariant
            i <= targets.len(),
            targets@ == placement::targets(store@.shards, store@.rf, hash),
            forall|k: int| 0 <= k < i ==> refs@.kind_of(#[trigger] targets@[k]) == ShardKind::Raw,
        decreases targets.len() - i,
    {
        if refs.kind(targets[i]) != ShardKind::Raw {
            assert(refs@.kind_of(targets@[i as int]) != ShardKind::Raw);
            return false;
        }
        i = i + 1;
    }
    true
}

/// Whether an object can be streamed from a file.
pub fn can_stream(store: &ShardedObjectStore, refs: &RawRefRegistry, key: &str) -> (r: bool)
    ensures
        r == all_raw(
            refs@,
            placement::targets(store@.shards, store@.rf, placement::key_hash(key@)),
        ),
{
    let hash: u32 = crc32c(key.as_bytes());
    can_stream_for_hash(store, refs, hash)
}

/// The length of the body of a file that ends with metadata.
pub open spec fn body_len(file_len: u64, meta_len: u16) -> u64 {
    if file_len >= meta_len {
        (file_len - meta_len) as u64
    } else {
        0
    }
}

/// Begins a put of an object that is streamed from a file, which ends with metadata;
/// none if writes are refused. The checksum of the body has been computed in pieces.
pub fn put_with_meta_from_file(
    store: &ShardedObjectStore,
    refs: &RawRefRegistry,
    key: &str,
    file_len: u64,
    crc: &RunningCrc,
    meta_len: u16,
) -> (r: Option<MetaPutJob>)
    ensures
        job_view(r) == (if store@.read_only {
            None
        } else {
            Some(
                meta_begun(
                    store@,
                    refs@,
                    key@,
                    true,
                    body_len(file_len, meta_len),
                    crc@,
                    meta_len,
                    placement::key_hash(key@),
                ),
            )
        }),
{
    if store.is_read_only() {
        return None;
    }
    let size: u64 = file_len.saturating_sub(meta_len as u64);
    let hash: u32 = crc32c(key.as_bytes());
    Some(MetaPutJob::begin_for_hash(store, refs, key, true, size, crc.value(), meta_len, hash))
}

/// Parts the bytes of a file that ends with metadata.
pub fn split_file(bytes: &Vec<u8>, meta_len: u16) -> (r: (Vec<u8>, Vec<u8>))
    ensures
        r.0@ + r.1@ == bytes@,
        bytes@.len() >= meta_len ==> r.1@.len() == meta_len,
        bytes@.len() < meta_len ==> r.0@.len() == 0,
{
    let end: usize = bytes.len().saturating_sub(meta_len as usize);
    let payload = slice_of(bytes, 0, end);
    let metadata = slice_of(bytes, end, bytes.len());
    assert(payload@ + metadata@ =~= bytes@);
    (payload, metadata)
}

fn slice_of(bytes: &Vec<u8>, from: usize, to: usize) -> (r: Vec<u8>)
    requires
        from <= to <= bytes.len(),
    ensures
        r@ == bytes@.subrange(from as int, to as int),
{
    let mut r: Vec<u8> = Vec::new();
    let mut i: usize = from;
    while i < to
        invariant
            from <= i <= to <= bytes.len(),
            r@ == bytes@.subrange(from as int, i as int),
        decreases to - i,
    {
        r.push(bytes[i]);
        assert(r@ =~= bytes@.subrange(from as int, i + 1));
        i = i + 1;
    }
    r
}

impl MetaPutJob {
    /// Begins a put, given the size and checksum of the object and the hash of its key.
    pub fn begin_for_hash(
        store: &ShardedObjectStore,
        refs: &RawRefRegistry,
        key: &str,
        streamed: bool,
        size: u64,
        crc: u32,
        meta_len: u16,
        hash: u32,
    ) -> (j: MetaPutJob)
        ensures
            j@ == meta_begun(store@, refs@, key@, streamed, size, crc, meta_len, hash),
    {
        let targets = store.targets_for_hash(hash);
        let asked = keep_writable(refs, streamed, targets.as_slice());
        let j = MetaPutJob {
            key: key.to_owned(),
            targets,
            asked,
            streamed,
            retried: false,
            placed: Vec::new(),
            last_error: None,
            size,
            crc,
            meta_len,
        };
        assert(j@.placed =~= Seq::<usize>::empty());
        j
    }

    /// The shards to write to.
    pub fn asked(&self) -> (r: &Vec<ShardId>)
        ensures
            r@ == self@.asked,
    {
        &self.asked
    }

    fn end(&self, store: &mut ShardedObjectStore, now: Timestamp) -> (step: MetaPutStep)
        ensures
            (final(store)@, step@) == meta_ended(old(store)@, self@, now),
            store::valid(old(store)@) ==> store::valid(final(store)@),
    {
        if self.placed.len() == 0 {
            return match &self.last_error {
                Some(m) => MetaPutStep::Failed(m.clone()),
                None => MetaPutStep::NotFound,
            };
        }
        let required: usize = store.min_writes();
        if self.placed.len() < required {
            let mut cleanup: Vec<ShardId> = Vec::new();
            assert(cleanup@ =~= Seq::<usize>::empty());
            if !store.catalog().contains(self.key.as_str()) {
                cleanup = writes::keep_existing(store.shard_count(), self.placed.as_slice());
            }
            return MetaPutStep::Insufficient { required, actual: self.placed.len(), cleanup };
        }
        store.catalog_mut().put_at(
            self.key.clone(),
            copy_ids(self.placed.as_slice()),
            self.size,
            Some(self.crc),
            self.meta_len,
            now,
        );
        MetaPutStep::Done
    }

    /// Takes what the shards that were asked have answered, in that order, given the
    /// hash of the key: nothing for a success, or an error in words.
    pub fn report_for_hash(
        &mut self,
        store: &mut ShardedObjectStore,
        refs: &RawRefRegistry,
        results: &Vec<Option<String>>,
        hash: u32,
        now: Timestamp,
    ) -> (step: MetaPutStep)
        requires
            results.len() == old(self)@.asked.len(),
        ensures
            (final(store)@, final(self)@, step@) == meta_reported(
                old(store)@,
                refs@,
                old(self)@,
                writes::answers(results@),
                hash,
                now,
            ),
            store::valid(old(store)@) ==> store::valid(final(store)@),
    {
        let (ok, failed, _messages) = sort_answers(&self.asked, results, ": ");
        self.placed.extend_from_slice(ok.as_slice());
        assert(self.placed@ =~= old(self).placed@ + ok@);
        self.last_error = find_last_error(results, &self.last_error);
        if self.retried {
            return self.end(store, now);
        }
        let retry = store.mark_write_failures_for_hash(
            self.placed.as_slice(),
            failed.as_slice(),
            self.targets.as_slice(),
            hash,
            now,
        );
        if self.placed.len() == 0 && retry.len() > 0 {
            self.asked = keep_writable(refs, self.streamed, retry.as_slice());
            self.retried = true;
            return MetaPutStep::Write(copy_ids(self.asked.as_slice()));
        }
        self.end(store, now)
    }

    /// Takes what the shards that were asked have answered, in that order: nothing for
    /// a success, or an error in words.
    pub fn report(
        &mut self,
        store: &mut ShardedObjectStore,
        refs: &RawRefRegistry,
        results: &Vec<Option<String>>,
        now: Timestamp,
    ) -> (step: MetaPutStep)
        requires
            results.len() == old(self)@.asked.len(),
        ensures
            (final(store)@, final(self)@, step@) == meta_reported(
                old(store)@,
                refs@,
                old(self)@,
                writes::answers(results@),
                placement::key_hash(old(self)@.key),
                now,
            ),
            store::valid(old(store)@) ==> store::valid(final(store)@),
    {
        let hash: u32 = crc32c(self.key.as_str().as_bytes());
        self.report_for_hash(store, refs, results, hash, now)
    }
}

// -- Laws -------------------------------------------------------------------

/// A put along with metadata succeeds if and only if it has been taken by as many
/// shards as a put needs, and then it is recorded on exactly these, with its size, its
/// checksum and the length of its metadata.
pub proof fn a_put_with_metadata_is_recorded_where_it_was_taken(
    c: store::ClusterState,
    refs: metadata::Registry,
    m: MetaPutState,
    results: Seq<Option<Seq<char>>>,
    hash: u32,
    now: Timestamp,
)
    requires
        c.min_writes >= 1,
    ensures
        ({
            let (after, next, step) = meta_reported(c, refs, m, results, hash, now);
            &&& next.placed == m.placed + writes::successes(m.asked, results)
            &&& step is Done ==> next.placed.len() >= c.min_writes && after.entries == c.entries.insert(
                m.key,
                catalog::placed(next.placed, m.size, Some(m.crc), m.meta_len, now),
            )
            &&& !(step is Done) ==> after.entries == c.entries
            &&& !(step is Done) && !(step is Write) ==> next.placed.len() < c.min_writes
        }),
{
    let failed = writes::failures(m.asked, results);
    writes::lemma_taken_offline(c, failed, now);
    writes::lemma_all_degraded(c, failed, now);
}

/// A put along with metadata tries other shards once at most, and none of those that it
/// has chosen first.
pub proof fn a_put_with_metadata_is_retried_at_most_once(
    c: store::ClusterState,
    refs: metadata::Registry,
    m: MetaPutState,
    results: Seq<Option<Seq<char>>>,
    hash: u32,
    now: Timestamp,
)
    ensures
        ({
            let (_, next, step) = meta_reported(c, refs, m, results, hash, now);
            step matches StepSpec::Write(ids) ==> !m.retried && next.retried && forall|i: int|
                0 <= i < ids.len() ==> !m.targets.contains(#[trigger] ids[i])
        }),
{
    let failed = writes::failures(m.asked, results);
    let after = writes::taken_offline(c, failed, now);
    let fresh = placement::targets(after.shards, after.rf, hash);
    let pred = |x: usize| !m.targets.contains(x);
    let retry = fresh.filter(pred);
    assert forall|i: int| 0 <= i < retry.len() implies !m.targets.contains(#[trigger] retry[i]) by {
        fresh.lemma_filter_pred(pred, i);
    }
    catalog::lemma_filter_members(retry, |id: usize| refs.raw(id) is Some);
    let kept = retry.filter(|id: usize| refs.raw(id) is Some);
    assert forall|i: int| 0 <= i < kept.len() implies !m.targets.contains(#[trigger] kept[i]) by {
        assert(retry.contains(kept[i]));
        let j = retry.index_of(kept[i]);
        assert(!m.targets.contains(retry[j]));
    }
}

/// An object and its metadata are put to every shard that exists, in the way of its kind,
/// except to a raw shard whose raw store is not at hand. A copy goes to any shard: where
/// its metadata cannot be kept, or there is none, by itself.
pub proof fn every_shard_is_written_in_the_way_of_its_kind(
    c: store::ClusterState,
    refs: metadata::Registry,
    shard: usize,
    location: Seq<char>,
    meta: Seq<u8>,
)
    requires
        shard < c.shards.len(),
    ensures
        match refs.kind_of(shard) {
            ShardKind::Raw => {
                &&& shard_put(c, refs, shard, location, meta) matches WriteSpec::Raw(h)
                    ==> refs.raw(shard) == Some(h)
                &&& shard_put(c, refs, shard, location, meta) is Missing <==> refs.raw(shard)
                    is None
                &&& shard_copy(refs, shard, location, meta) is Raw <==> meta.len() > 0
                    && refs.raw(shard) is Some
            },
            ShardKind::S3Like => {
                &&& shard_put(c, refs, shard, location, meta) is Attributes
                &&& shard_copy(refs, shard, location, meta) is Attributes <==> meta.len() > 0
            },
            ShardKind::Sidecar => {
                &&& shard_put(c, refs, shard, location, meta) matches WriteSpec::Sidecar(p) && (
                p is Some <==> meta.len() > 0)
                &&& shard_copy(refs, shard, location, meta) is Sidecar <==> meta.len() > 0
            },
        },
        shard_copy(refs, shard, location, meta) == WriteSpec::Plain <==> meta.len() == 0 || (
        refs.kind_of(shard) == ShardKind::Raw && refs.raw(shard) is None),
        meta.len() > 0 && !(refs.kind_of(shard) == ShardKind::Raw && refs.raw(shard) is None)
            ==> shard_copy(refs, shard, location, meta) == shard_put(c, refs, shard, location, meta),
{
}

/// A put along with metadata goes where any put of the object goes. What is streamed from
/// a file goes to those of these shards alone that have a raw store.
pub proof fn a_put_with_metadata_goes_where_a_put_would(
    c: store::ClusterState,
    refs: metadata::Registry,
    key: Seq<char>,
    streamed: bool,
    size: u64,
    crc: u32,
    meta_len: u16,
    hash: u32,
    id: usize,
)
    ensures
        ({
            let m = meta_begun(c, refs, key, streamed, size, crc, meta_len, hash);
            let targets = put::put_targets(c, put::PutMode::Overwrite, hash);
            &&& m.targets == targets
            &&& !streamed ==> m.asked == targets
            &&& m.asked.contains(id) <==> targets.contains(id) && (streamed ==> refs.raw(id)
                is Some)
            &&& m.key == key && m.size == size && m.crc == crc && m.meta_len == meta_len
            &&& !m.retried && m.placed.len() == 0 && m.last_error is None
        }),
{
    writes::lemma_kept(
        placement::targets(c.shards, c.rf, hash),
        |id: usize| refs.raw(id) is Some,
        id,
    );
}

/// A put along with metadata that at least one shard has taken is judged by how many
/// have. If they are enough it is done. If they are too few it is deleted again from
/// those that exist, unless the catalog has the object.
pub proof fn a_put_with_metadata_is_judged_by_how_many_took_it(
    c: store::ClusterState,
    refs: metadata::Registry,
    m: MetaPutState,
    results: Seq<Option<Seq<char>>>,
    hash: u32,
    now: Timestamp,
)
    requires
        m.asked.len() == results.len(),
        m.placed.len() == 0,
        writes::tally_of(results) > 0,
    ensures
        ({
            let n = writes::tally_of(results);
            let (_, next, step) = meta_reported(c, refs, m, results, hash, now);
            &&& forall|id: usize| #[trigger]
                next.placed.contains(id) <==> writes::answered_with(m.asked, results, id, true)
            &&& n >= c.min_writes ==> step is Done
            &&& n < c.min_writes ==> (step matches StepSpec::Insufficient {
                required,
                actual,
                cleanup,
            } && required == c.min_writes && actual == n && forall|id: usize| #[trigger]
                cleanup.contains(id) <==> !c.entries.contains_key(m.key) && id < c.shards.len()
                    && writes::answered_with(m.asked, results, id, true))
        }),
{
    writes::answers_part_the_shards(m.asked, results);
    let took = writes::successes(m.asked, results);
    let failed = writes::failures(m.asked, results);
    assert(m.placed + took =~= took);
    writes::lemma_all_degraded(c, failed, now);
    let n = c.shards.len();
    let pred = |id: usize| id < n;
    assert forall|id: usize| #[trigger] writes::existing(n, took).contains(id) <==> id < n
        && took.contains(id) by {
        writes::lemma_kept(took, pred, id);
    }
    assert forall|id: usize| !(#[trigger] Seq::<usize>::empty().contains(id)) by {}
}

/// A put along with metadata that no shard has taken is tried once more if any shard that
/// was not chosen at first takes writes. Otherwise it fails with the last error, or finds
/// no shard if none was asked.
pub proof fn a_put_with_metadata_that_no_shard_took_is_tried_elsewhere(
    c: store::ClusterState,
    refs: metadata::Registry,
    m: MetaPutState,
    results: Seq<Option<Seq<char>>>,
    hash: u32,
    now: Timestamp,
)
    requires
        c.shards.len() <= usize::MAX,
        c.rf >= 1,
        m.asked.len() == results.len(),
        m.asked.len() > 0,
        m.asked == m.targets,
        forall|i: int| 0 <= i < m.asked.len() ==> (#[trigger] m.asked[i]) < c.shards.len(),
        m.placed.len() == 0,
        writes::tally_of(results) == 0,
    ensures
        ({
            let (_, next, step) = meta_reported(c, refs, m, results, hash, now);
            let other = |id: usize|
                id < c.shards.len() && !m.targets.contains(id)
                    && c.shards[id as int].health.writable();
            let elsewhere = exists|id: usize| #[trigger] other(id);
            &&& !m.retried && elsewhere ==> (step matches StepSpec::Write(ids) && next.retried
                && next.asked == ids && (!m.streamed ==> ids.len() > 0) && forall|i: int|
                0 <= i < ids.len() ==> other(#[trigger] ids[i]))
            &&& m.retried || !elsewhere ==> step == StepSpec::Failed(results.last()->0)
        }),
{
    let w = writes::WriteState {
        key: m.key,
        targets: m.targets,
        asked: m.asked,
        min_required: c.min_writes,
        cleanup_on_fail: true,
        retried: m.retried,
        placed: m.placed,
        errors: Seq::empty(),
    };
    assert forall|id: usize| #[trigger] w.asked.contains(id) <==> w.targets.contains(id) && id
        < c.shards.len() by {
        if w.asked.contains(id) {
            assert(m.asked[m.asked.index_of(id)] < c.shards.len());
        }
    }
    writes::a_write_that_no_shard_took_is_tried_elsewhere(c, w, results, hash, now);
    writes::answers_part_the_shards(m.asked, results);
    let took = writes::successes(m.asked, results);
    assert(m.placed + took =~= took);
    assert(results.last() is Some) by {
        let n = results.len() - 1;
        if results[n] is None {
            let i = n as int;
            assert(m.asked[i] == m.asked[i]);
            assert(writes::answered_with(m.asked, results, m.asked[i], true));
            assert(took.contains(m.asked[i]));
        }
    }
    let failed = writes::failures(m.asked, results);
    let after = writes::taken_offline(c, failed, now);
    let retry = ids::minus(placement::targets(after.shards, after.rf, hash), m.targets);
    catalog::lemma_filter_members(retry, |id: usize| refs.raw(id) is Some);
    if !m.retried {
        let other = |id: usize|
            id < c.shards.len() && !m.targets.contains(id) && c.shards[id as int].health.writable();
        let asked = writable_to(refs, m.streamed, retry);
        if exists|id: usize| #[trigger] other(id) {
            assert forall|i: int| 0 <= i < asked.len() implies other(#[trigger] asked[i]) by {
                assert(retry.contains(asked[i]));
                let k = retry.index_of(asked[i]);
                assert(other(retry[k]));
            }
        }
    }
}

} // verus!
