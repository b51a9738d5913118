//! Reading the metadata of objects.

use vstd::prelude::*;
use vstd::string::*;
use crate::catalog;
use crate::catalog::ObjectMeta;
use crate::digest::crc32c;
use crate::ids::ShardId;
use crate::listing::copy_object;
use crate::markers;
use crate::meta_put;
use crate::metadata;
use crate::metadata::{
    attributes_to_meta, is_sidecar, meta_sidecar_path, RawHandle, RawRefRegistry, ShardKind,
};
use crate::placement;
use crate::read;
use crate::store;
use crate::store::ShardedObjectStore;
use crate::text;
use crate::text::str_eq;
use crate::tlv;
use crate::tlv::encode_metadata;
use crate::writes;

verus! {

// -- From one shard ---------------------------------------------------------

/// The bytes, if there are any.
pub open spec fn some_bytes(bytes: Option<Seq<u8>>) -> Option<Seq<u8>> {
    match bytes {
        Some(b) if b.len() > 0 => Some(b),
        _ => None,
    }
}

/// The metadata that attributes stand for, or nothing if there is none or if it cannot
/// be encoded.
pub open spec fn encoded_attributes(a: Map<metadata::AttributeKey, Seq<char>>) -> Seq<u8> {
    match tlv::encoded(metadata::meta_from(a)) {
        Ok(bytes) => bytes,
        Err(_) => Seq::empty(),
    }
}

/// The metadata of an object on a shard, given its attributes there, and what its raw
/// store or its sidecar gave.
pub open spec fn metadata_on(
    refs: metadata::Registry,
    shard: usize,
    attributes: Map<metadata::AttributeKey, Seq<char>>,
    stored: Option<Seq<u8>>,
) -> Option<Seq<u8>> {
    match refs.kind_of(shard) {
        ShardKind::Raw => if refs.raw(shard) is Some {
            some_bytes(stored)
        } else {
            None
        },
        ShardKind::S3Like => some_bytes(Some(encoded_attributes(attributes))),
        ShardKind::Sidecar => some_bytes(stored),
    }
}

/// The bytes of an optional vector.
pub open spec fn bytes_view(b: Option<Vec<u8>>) -> Option<Seq<u8>> {
    match b {
        Some(v) => Some(v@),
        None => None,
    }
}

fn keep_some(b: Option<Vec<u8>>) -> (r: Option<Vec<u8>>)
    ensures
        bytes_view(r) == some_bytes(bytes_view(b)),
{
    match b {
        Some(v) => {
            if v.len() > 0 {
                Some(v)
            } else {
                None
            }
        },
        None => None,
    }
}

/// The metadata that attributes stand for.
pub fn encode_attributes(attributes: &object_store::Attributes) -> (r: Vec<u8>)
    ensures
        r@ == encoded_attributes(metadata::attributes_of(*attributes)),
{
    let meta = attributes_to_meta(attributes);
    match encode_metadata(&meta) {
        Ok(bytes) => bytes,
        Err(_) => {
            let none: Vec<u8> = Vec::new();
            assert(none@ =~= Seq::<u8>::empty());
            none
        },
    }
}

/// The metadata of an object on a shard, given its attributes there, and what its raw
/// store or its sidecar gave, if that could be read.
pub fn read_metadata_from_shard(
    refs: &RawRefRegistry,
    shard_id: ShardId,
    attributes: &object_store::Attributes,
    stored: Option<Vec<u8>>,
) -> (r: Option<Vec<u8>>)
    ensures
        bytes_view(r) == metadata_on(
            refs@,
            shard_id,
            metadata::attributes_of(*attributes),
            bytes_view(stored),
        ),
{
    match refs.kind(shard_id) {
        ShardKind::Raw => {
            if refs.get(shard_id).is_some() {
                keep_some(stored)
            } else {
                None
            }
        },
        ShardKind::S3Like => keep_some(Some(encode_attributes(attributes))),
        ShardKind::Sidecar => keep_some(stored),
    }
}

// -- One shard after the other ----------------------------------------------

/// What is asked of the shards.
#[derive(Debug, Clone, Copy, PartialEq, Eq, Structural)]
pub enum MetaOp {
    /// What is known of the object, and the length of its metadata.
    Head,
    /// Its metadata.
    Read,
    /// To record the length of its metadata.
    SetLen,
}

/// Shards that are asked in turn.
pub struct AskState {
    pub op: MetaOp,
    pub key: Seq<char>,
    pub order: Seq<usize>,
    pub asked: nat,
    pub last_error: Option<Seq<char>>,
}

/// What comes next.
pub enum StepSpec {
    AskRaw { shard: usize, raw: usize },
    AskStore { shard: usize, sidecar: Option<Seq<char>> },
    Accepted,
    NotFound,
    Failed(Seq<char>),
}

/// What comes next.
#[derive(Debug)]
pub enum MetaStep {
    /// Ask the raw store of a shard.
    AskRaw { shard: ShardId, raw: RawHandle },
    /// Ask the store of a shard: for its sidecar if one is given, and otherwise for the
    /// object.
    AskStore { shard: ShardId, sidecar: Option<String> },
    /// There is nothing to do: the shard does not track the length of metadata.
    Accepted,
    /// No shard has the object.
    NotFound,
    /// The last error, in words.
    Failed(String),
}

impl View for MetaStep {
    type V = StepSpec;

    open spec fn view(&self) -> StepSpec {
        match *self {
            MetaStep::AskRaw { shard, raw } => StepSpec::AskRaw { shard, raw },
            MetaStep::AskStore { shard, sidecar } => StepSpec::AskStore {
                shard,
                sidecar: text::opt_view(sidecar),
            },
            MetaStep::Accepted => StepSpec::Accepted,
            MetaStep::NotFound => StepSpec::NotFound,
            MetaStep::Failed(m) => StepSpec::Failed(m@),
        }
    }
}

/// Whether every shard that is raw has its raw store.
pub open spec fn consistent(refs: metadata::Registry) -> bool {
    forall|id: usize| (#[trigger] refs.kind_of(id)) == ShardKind::Raw ==> refs.raw(id) is Some
}

/// Whether every shard that is raw has its raw store.
pub fn is_consistent(refs: &RawRefRegistry) -> (r: bool)
    ensures
        r == consistent(refs@),
{
    let n: usize = refs.shard_count();
    let mut id: usize = 0;
    while id < n
        invariant
            id <= n,
            n == refs@.kinds.len(),
            forall|k: usize|
                k < id && (#[trigger] refs@.kind_of(k)) == ShardKind::Raw ==> refs@.raw(k) is Some,
        decreases n - id,
    {
        if refs.kind(id) == ShardKind::Raw && refs.get(id).is_none() {
            assert(refs@.kind_of(id) == ShardKind::Raw && refs@.raw(id) is None);
            return false;
        }
        id = id + 1;
    }
    true
}

/// The shards to ask, in turn. Delete markers are hidden, and a cluster that is
/// read-only records nothing.
pub open spec fn ask_begun(c: store::ClusterState, op: MetaOp, key: Seq<char>, hash: u32) -> (
    store::ClusterState,
    Option<AskState>,
) {
    if if op == MetaOp::SetLen {
        c.read_only
    } else {
        markers::is_marker(key)
    } {
        (c, None)
    } else {
        let ids = placement::candidates(c, key, hash);
        (
            placement::order_taken(c, ids),
            Some(
                AskState {
                    op,
                    key,
                    order: placement::read_order(c, ids),
                    asked: 0,
                    last_error: None,
                },
            ),
        )
    }
}

/// The shards to ask when the next one is due, and what to ask it.
pub open spec fn ask_next(n: nat, refs: metadata::Registry, s: AskState) -> (AskState, StepSpec)
    decreases s.order.len() - s.asked,
{
    if s.asked >= s.order.len() {
        (
            s,
            match s.last_error {
                Some(m) => StepSpec::Failed(m),
                None => StepSpec::NotFound,
            },
        )
    } else {
        let shard = s.order[s.asked as int];
        match refs.raw(shard) {
            Some(raw) => (s, StepSpec::AskRaw { shard, raw }),
            None => if shard >= n {
                ask_next(n, refs, AskState { asked: s.asked + 1, ..s })
            } else if s.op == MetaOp::SetLen {
                (s, StepSpec::Accepted)
            } else {
                (
                    s,
                    StepSpec::AskStore {
                        shard,
                        sidecar: if s.op == MetaOp::Read && refs.kind_of(shard)
                            == ShardKind::Sidecar {
                            Some(metadata::sidecar_of(s.key))
                        } else {
                            None
                        },
                    },
                )
            },
        }
    }
}

/// Why a shard did not give what was asked.
#[derive(Debug)]
pub enum MetaMiss {
    NotFound,
    /// With the error in words.
    Failed(String),
}

/// The shards to ask after one did not give what was asked. Of a head the last error
/// is kept.
pub open spec fn ask_missed(s: AskState, error: Option<Seq<char>>) -> AskState {
    AskState {
        asked: s.asked + 1,
        last_error: if s.op == MetaOp::Head && error is Some {
            error
        } else {
            s.last_error
        },
        ..s
    }
}

/// The error of a miss.
pub open spec fn miss_view(m: MetaMiss) -> Option<Seq<char>> {
    match m {
        MetaMiss::NotFound => None,
        MetaMiss::Failed(e) => Some(e@),
    }
}

/// Shards that are asked in turn.
#[derive(Debug)]
pub struct MetaJob {
    op: MetaOp,
    key: String,
    order: Vec<ShardId>,
    asked: usize,
    last_error: Option<String>,
}

impl View for MetaJob {
    type V = AskState;

    closed spec fn view(&self) -> AskState {
        AskState {
            op: self.op,
            key: self.key@,
            order: self.order@,
            asked: self.asked as nat,
            last_error: text::opt_view(self.last_error),
        }
    }
}

/// Shards to ask, unless the request is refused, in the terms of the model.
pub open spec fn job_view(r: Option<MetaJob>) -> Option<AskState> {
    match r {
        Some(j) => Some(j@),
        None => None,
    }
}

impl MetaJob {
    #[verifier::type_invariant]
    spec fn inv(&self) -> bool {
        self.asked <= self.order@.len()
    }

    /// Begins to ask, unless there can be no such object, or the cluster is read-only
    /// and a length is to be recorded.
    pub fn begin(store: &mut ShardedObjectStore, op: MetaOp, key: &str) -> (r: Option<MetaJob>)
        ensures
            (final(store)@, job_view(r)) == ask_begun(
                old(store)@,
                op,
                key@,
                placement::key_hash(key@),
            ),
            store::valid(old(store)@) ==> store::valid(final(store)@),
    {
        let hash: u32 = crc32c(key.as_bytes());
        Self::begin_for_hash(store, op, key, hash)
    }

    /// Begins to ask, given the hash of the key.
    pub fn begin_for_hash(store: &mut ShardedObjectStore, op: MetaOp, key: &str, hash: u32) -> (r:
        Option<MetaJob>)
        ensures
            (final(store)@, job_view(r)) == ask_begun(old(store)@, op, key@, hash),
            store::valid(old(store)@) ==> store::valid(final(store)@),
    {
        let refused = if op == MetaOp::SetLen {
            store.is_read_only()
        } else {
            ShardedObjectStore::is_delete_marker(key)
        };
        if refused {
            return None;
        }
        let (order, _fallback) = store.resolve_shards_for_hash(key, hash);
        Some(MetaJob { op, key: key.to_owned(), order, asked: 0, last_error: None })
    }

    /// What comes next. Metadata can be read only if every raw shard has its raw store.
    pub fn next(&mut self, store: &ShardedObjectStore, refs: &RawRefRegistry) -> (step: MetaStep)
        requires
            old(self)@.op == MetaOp::Read ==> consistent(refs@),
        ensures
            (final(self)@, step@) == ask_next(store@.shards.len(), refs@, old(self)@),
    {
        proof {
            use_type_invariant(&*self);
        }
        while self.asked < self.order.len()
            invariant
                self.asked <= self.order@.len(),
                ask_next(store@.shards.len(), refs@, self@) == ask_next(
                    store@.shards.len(),
                    refs@,
                    old(self)@,
                ),
            decreases self.order@.len() - self.asked,
        {
            let shard: usize = self.order[self.asked];
            if let Some(raw) = refs.get(shard) {
                return MetaStep::AskRaw { shard, raw };
            }
            if shard < store.shard_count() {
                if self.op == MetaOp::SetLen {
                    return MetaStep::Accepted;
                }
                let sidecar = if self.op == MetaOp::Read && refs.kind(shard) == ShardKind::Sidecar {
                    Some(meta_sidecar_path(self.key.as_str()))
                } else {
                    None
                };
                return MetaStep::AskStore { shard, sidecar };
            }
            self.asked = self.asked + 1;
        }
        match &self.last_error {
            Some(m) => MetaStep::Failed(m.clone()),
            None => MetaStep::NotFound,
        }
    }

    /// Takes that the shard that was asked did not give what was asked.
    pub fn missed(&mut self, miss: &MetaMiss)
        requires
            old(self)@.asked < old(self)@.order.len(),
        ensures
            final(self)@ == ask_missed(old(self)@, miss_view(*miss)),
    {
        let n: usize = self.order.len();
        assert(self.asked < n);
        if self.op == MetaOp::Head {
            if let MetaMiss::Failed(m) = miss {
                self.last_error = Some(m.clone());
            }
        }
        self.asked = self.asked + 1;
    }

    /// The length of metadata that a head gives, given the one that the raw store gave
    /// if a raw store was asked: any other shard leaves it to the catalog.
    pub fn meta_len(&self, store: &ShardedObjectStore, raw: Option<u16>) -> (r: u16)
        ensures
            r == (match raw {
                Some(n) => n,
                None => if store@.entries.contains_key(self@.key) {
                    store@.entries[self@.key].meta_len
                } else {
                    0
                },
            }),
    {
        match raw {
            Some(n) => n,
            None => match store.placement(self.key.as_str()) {
                Some(e) => e.meta_len,
                None => 0,
            },
        }
    }
}

// -- All shards -------------------------------------------------------------

/// An object with the length of its metadata.
#[derive(Debug)]
pub struct MetaObject {
    pub object: ObjectMeta,
    pub meta_len: u16,
}

/// An object with the length of its metadata.
pub type MetaSpec = (catalog::ObjectSpec, u16);

/// Objects with the lengths of their metadata.
pub open spec fn meta_views(v: Seq<MetaObject>) -> Seq<MetaSpec> {
    Seq::new(v.len(), |i: int| (v[i].object@, v[i].meta_len))
}

/// What shards list.
pub open spec fn list_views(v: Seq<Vec<MetaObject>>) -> Seq<Seq<MetaSpec>> {
    Seq::new(v.len(), |i: int| meta_views(v[i]@))
}

/// Whether objects include one of a location.
pub open spec fn includes(list: Seq<MetaSpec>, location: Seq<char>) -> bool {
    exists|i: int| 0 <= i < list.len() && (#[trigger] list[i]).0.location == location
}

/// Whether the objects of a shard are listed.
pub open spec fn shard_listed(n: nat, refs: metadata::Registry, shard: usize) -> bool {
    refs.raw(shard) is Some || shard < n
}

/// Objects after one more of a shard: delete markers are hidden, sidecars are where the
/// shard keeps those, and so is an object that was listed before. Only a raw store
/// tells the length of metadata.
pub open spec fn object_listed(
    list: Seq<MetaSpec>,
    refs: metadata::Registry,
    shard: usize,
    o: MetaSpec,
) -> Seq<MetaSpec> {
    let raw = refs.raw(shard) is Some;
    if markers::is_marker(o.0.location) || includes(list, o.0.location) || (!raw && refs.kind_of(
        shard,
    ) == ShardKind::Sidecar && metadata::names_sidecar(o.0.location)) {
        list
    } else {
        list.push(
            (
                o.0,
                if raw {
                    o.1
                } else {
                    0
                },
            ),
        )
    }
}

/// Objects after those of a shard.
pub open spec fn objects_listed(
    list: Seq<MetaSpec>,
    refs: metadata::Registry,
    shard: usize,
    objects: Seq<MetaSpec>,
) -> Seq<MetaSpec>
    decreases objects.len(),
{
    if objects.len() == 0 {
        list
    } else {
        object_listed(
            objects_listed(list, refs, shard, objects.drop_last()),
            refs,
            shard,
            objects.last(),
        )
    }
}

/// The objects of all shards, each once.
pub open spec fn all_listed(n: nat, refs: metadata::Registry, lists: Seq<Seq<MetaSpec>>) -> Seq<
    MetaSpec,
>
    decreases lists.len(),
{
    if lists.len() == 0 {
        Seq::empty()
    } else {
        let head = all_listed(n, refs, lists.drop_last());
        let shard = (lists.len() - 1) as usize;
        if shard_listed(n, refs, shard) {
            objects_listed(head, refs, shard, lists.last())
        } else {
            head
        }
    }
}

fn has_location(list: &Vec<MetaObject>, location: &str) -> (r: bool)
    ensures
        r == includes(meta_views(list@), location@),
{
    let ghost all = meta_views(list@);
    let mut i: usize = 0;
    while i < list.len()
        invariant
            i <= list.len(),
            all == meta_views(list@),
            forall|k: int| 0 <= k < i ==> (#[trigger] all[k]).0.location != location@,
        decreases list.len() - i,
    {
        assert(all[i as int].0.location == list@[i as int].object.location@);
        if str_eq(list[i].object.location.as_str(), location) {
            return true;
        }
        i = i + 1;
    }
    false
}

/// Lists the objects of all shards, given what each of them lists: each object once,
/// with the length of its metadata where a raw store tells it.
pub fn list_with_meta(
    store: &ShardedObjectStore,
    refs: &RawRefRegistry,
    lists: &Vec<Vec<MetaObject>>,
) -> (r: Vec<MetaObject>)
    ensures
        meta_views(r@) == all_listed(store@.shards.len(), refs@, list_views(lists@)),
{
    let ghost n = store@.shards.len();
    let ghost all = list_views(lists@);
    let mut r: Vec<MetaObject> = Vec::new();
    let mut shard: usize = 0;
    assert(meta_views(r@) =~= all_listed(n, refs@, all.take(0)));
    while shard < lists.len()
        invariant
            shard <= lists.len(),
            n == store@.shards.len(),
            all == list_views(lists@),
            meta_views(r@) == all_listed(n, refs@, all.take(shard as int)),
        decreases lists.len() - shard,
    {
        let ghost objects = meta_views(lists@[shard as int]@);
        proof {
            assert(all.take(shard + 1).drop_last() =~= all.take(shard as int));
            assert(all.take(shard + 1).last() == objects);
            assert((all.take(shard + 1).len() - 1) as usize == shard);
        }
        let raw = refs.get(shard).is_some();
        if raw || shard < store.shard_count() {
            let sidecars = !raw && refs.kind(shard) == ShardKind::Sidecar;
            let ghost head = meta_views(r@);
            let list = &lists[shard];
            let mut i: usize = 0;
            assert(objects.take(0) =~= Seq::<MetaSpec>::empty());
            while i < list.len()
                invariant
                    i <= list.len(),
                    objects == meta_views(list@),
                    raw == (refs@.raw(shard) is Some),
                    sidecars == (!raw && refs@.kind_of(shard) == ShardKind::Sidecar),
                    meta_views(r@) == objects_listed(head, refs@, shard, objects.take(i as int)),
                decreases list.len() - i,
            {
                proof {
                    assert(objects.take(i + 1).drop_last() =~= objects.take(i as int));
                    assert(objects.take(i + 1).last() == objects[i as int]);
                }
                let location = list[i].object.location.as_str();
                let hidden = ShardedObjectStore::is_delete_marker(location) || (sidecars
                    && is_sidecar(location)) || has_location(&r, location);
                if !hidden {
                    let ghost before = r@;
                    let one = MetaObject {
                        object: copy_object(&list[i].object),
                        meta_len: if raw {
                            list[i].meta_len
                        } else {
                            0
                        },
                    };
                    r.push(one);
                    assert(meta_views(r@) =~= meta_views(before).push((one.object@, one.meta_len)));
                }
                i = i + 1;
            }
            assert(objects.take(i as int) =~= objects);
        }
        shard = shard + 1;
    }
    assert(all.take(shard as int) =~= all);
    r
}

/// The shards from which the sidecar of an object is deleted.
pub open spec fn sidecar_shards(c: store::ClusterState, refs: metadata::Registry, hash: u32) -> Seq<usize> {
    if c.read_only {
        Seq::empty()
    } else {
        placement::targets(c.shards, c.rf, hash).filter(
            |id: usize| refs.kind_of(id) == ShardKind::Sidecar && id < c.shards.len(),
        )
    }
}

/// The shards from which to delete the sidecar of an object, given the hash of its key.
pub fn delete_sidecar_for_hash(store: &ShardedObjectStore, refs: &RawRefRegistry, hash: u32) -> (r: Vec<
    ShardId,
>)
    ensures
        r@ == sidecar_shards(store@, refs@, hash),
{
    let mut r: Vec<ShardId> = Vec::new();
    if store.is_read_only() {
        assert(r@ =~= Seq::<usize>::empty());
        return r;
    }
    let ghost c = store@;
    let ghost pred = |id: usize| refs@.kind_of(id) == ShardKind::Sidecar && id < c.shards.len();
    let targets = store.targets_for_hash(hash);
    let mut i: usize = 0;
    proof {
        placement::lemma_filter_none(targets@, pred);
    }
    while i < targets.len()
        invariant
            i <= targets.len(),
            c == store@,
            pred == (|id: usize| refs@.kind_of(id) == ShardKind::Sidecar && id < c.shards.len()),
            r@ == targets@.take(i as int).filter(pred),
        decreases targets.len() - i,
    {
        proof {
            placement::lemma_filter_step(targets@, i as int, pred);
        }
        if refs.kind(targets[i]) == ShardKind::Sidecar && targets[i] < store.shard_count() {
            r.push(targets[i]);
        }
        i = i + 1;
    }
    assert(targets@.take(i as int) =~= targets@);
    r
}

/// The shards from which to delete the sidecar of an object.
pub fn delete_sidecar(store: &ShardedObjectStore, refs: &RawRefRegistry, key: &str) -> (r: Vec<ShardId>)
    ensures
        r@ == sidecar_shards(store@, refs@, placement::key_hash(key@)),
{
    let hash: u32 = crc32c(key.as_bytes());
    delete_sidecar_for_hash(store, refs, hash)
}

// -- Copies -----------------------------------------------------------------

/// Whether one of some shards is S3-like.
pub open spec fn has_s3like(refs: metadata::Registry, held: Seq<usize>) -> bool {
    exists|i: int| 0 <= i < held.len() && refs.kind_of(#[trigger] held[i]) == ShardKind::S3Like
}

/// Whether the metadata of an object is read when it is copied: not if nothing is known
/// of the shards, nor if the catalog says that it has none. It does not know of what
/// S3-like shards keep.
pub open spec fn wants_metadata(c: store::ClusterState, key: Seq<char>) -> bool {
    match c.refs {
        None => false,
        Some(refs) => !c.entries.contains_key(key) || c.entries[key].meta_len != 0 || has_s3like(
            refs,
            c.entries[key].shards,
        ),
    }
}

impl ShardedObjectStore {
    /// Whether the metadata of an object is read when it is copied.
    pub fn wants_object_metadata(&self, key: &str) -> (r: bool)
        ensures
            r == wants_metadata(self@, key@),
    {
        let refs = match self.raw_refs() {
            None => {
                return false;
            },
            Some(refs) => refs,
        };
        let entry = match self.placement(key) {
            None => {
                return true;
            },
            Some(e) => e,
        };
        if entry.meta_len != 0 {
            return true;
        }
        let mut i: usize = 0;
        while i < entry.shards.len()
            invariant
                i <= entry.shards.len(),
                self@.refs == Some(refs@),
                self@.entries.contains_key(key@),
                self@.entries[key@].shards == entry.shards@,
                forall|k: int|
                    0 <= k < i ==> refs@.kind_of(#[trigger] entry.shards@[k]) != ShardKind::S3Like,
            decreases entry.shards.len() - i,
        {
            if refs.kind(entry.shards[i]) == ShardKind::S3Like {
                assert(refs@.kind_of(entry.shards@[i as int]) == ShardKind::S3Like);
                return true;
            }
            i = i + 1;
        }
        false
    }

    /// Whether the metadata of an object is read when it is copied to another shard:
    /// not if the catalog says that it has none.
    pub fn wants_source_metadata(&self, key: &str) -> (r: bool)
        ensures
            r == !(self@.entries.contains_key(key@) && self@.entries[key@].meta_len == 0),
    {
        match self.placement(key) {
            Some(e) => e.meta_len != 0,
            None => true,
        }
    }

    /// Whether a copy of an object is put along with metadata of some length.
    pub fn copies_with_metadata(&self, meta_len: usize) -> (r: bool)
        ensures
            r == (meta_len > 0 && self@.refs is Some),
    {
        meta_len > 0 && self.raw_refs().is_some()
    }
}

/// The metadata of an object that is copied: what was read, or else what its attributes
/// stand for.
pub fn read_object_metadata(found: Option<Vec<u8>>, attributes: &object_store::Attributes) -> (r: Vec<
    u8,
>)
    ensures
        r@ == (match found {
            Some(b) => b@,
            None => encoded_attributes(metadata::attributes_of(*attributes)),
        }),
{
    match found {
        Some(b) => b,
        None => encode_attributes(attributes),
    }
}

// -- Laws -------------------------------------------------------------------

proof fn lemma_object_listed(
    list: Seq<MetaSpec>,
    refs: metadata::Registry,
    shard: usize,
    o: MetaSpec,
)
    requires
        each_once(list),
    ensures
        each_once(object_listed(list, refs, shard, o)),
{
    let r = object_listed(list, refs, shard, o);
    if r.len() > list.len() {
        assert forall|i: int, j: int| 0 <= i < j < r.len() implies (#[trigger] r[i]).0.location != (
        #[trigger] r[j]).0.location by {
            if j < list.len() {
                assert(list[i].0.location != list[j].0.location);
            } else {
                assert(list[i].0.location != o.0.location);
            }
        }
        assert forall|i: int| 0 <= i < r.len() implies !markers::is_marker(
            (#[trigger] r[i]).0.location,
        ) by {
            if i < list.len() {
                assert(!markers::is_marker(list[i].0.location));
            }
        }
    }
}

/// Whether a listing shows each object once, and no delete marker.
pub open spec fn each_once(list: Seq<MetaSpec>) -> bool {
    &&& forall|i: int, j: int|
        0 <= i < j < list.len() ==> (#[trigger] list[i]).0.location != (
        #[trigger] list[j]).0.location
    &&& forall|i: int| 0 <= i < list.len() ==> !markers::is_marker((#[trigger] list[i]).0.location)
}

proof fn lemma_objects_listed(
    list: Seq<MetaSpec>,
    refs: metadata::Registry,
    shard: usize,
    objects: Seq<MetaSpec>,
)
    requires
        each_once(list),
    ensures
        each_once(objects_listed(list, refs, shard, objects)),
    decreases objects.len(),
{
    if objects.len() > 0 {
        lemma_objects_listed(list, refs, shard, objects.drop_last());
        lemma_object_listed(
            objects_listed(list, refs, shard, objects.drop_last()),
            refs,
            shard,
            objects.last(),
        );
    }
}

/// A listing of all shards shows each object once, and no delete marker.
pub proof fn a_listing_of_all_shards_shows_each_object_once(
    n: nat,
    refs: metadata::Registry,
    lists: Seq<Seq<MetaSpec>>,
)
    ensures
        each_once(all_listed(n, refs, lists)),
    decreases lists.len(),
{
    if lists.len() > 0 {
        a_listing_of_all_shards_shows_each_object_once(n, refs, lists.drop_last());
        lemma_objects_listed(
            all_listed(n, refs, lists.drop_last()),
            refs,
            (lists.len() - 1) as usize,
            lists.last(),
        );
    }
}

/// Metadata that was put to a shard is read back from it, whatever the kind of the shard:
/// bytes from where they were written, attributes as the bytes that they stand for.
pub proof fn metadata_that_was_put_is_read_back(
    c: store::ClusterState,
    refs: metadata::Registry,
    shard: usize,
    location: Seq<char>,
    meta: Map<Seq<char>, Seq<char>>,
    bytes: Seq<u8>,
)
    requires
        shard < c.shards.len(),
        refs.kind_of(shard) == ShardKind::Raw ==> refs.raw(shard) is Some,
        meta.dom().finite(),
        forall|f: Seq<char>| #[trigger]
            meta.contains_key(f) ==> tlv::kept(f) && metadata::attribute_for(f) is Some,
        tlv::encoded(meta) == Ok::<Seq<u8>, tlv::Oversize>(bytes),
        bytes.len() > 0,
    ensures
        match meta_put::shard_put(c, refs, shard, location, bytes) {
            meta_put::WriteSpec::Raw(h) => metadata_on(refs, shard, Map::empty(), Some(bytes))
                == Some(bytes),
            meta_put::WriteSpec::Attributes(a) => metadata_on(refs, shard, a, None) == Some(bytes),
            meta_put::WriteSpec::Sidecar(p) => p == Some(metadata::sidecar_of(location))
                && metadata_on(refs, shard, Map::empty(), Some(bytes)) == Some(bytes),
            _ => false,
        },
{
    tlv::decoding_gives_back_what_encoding_wrote(meta);
    assert(tlv::kept_fields(meta) =~= meta);
    metadata::attributes_give_back_the_fields_they_stand_for(meta);
    assert(meta.restrict(Set::new(|f: Seq<char>| metadata::attribute_for(f) is Some)) =~= meta);
}

/// There is no metadata where there are no bytes of it, nor on a raw shard whose raw
/// store is not at hand.
pub proof fn no_bytes_are_no_metadata(
    refs: metadata::Registry,
    shard: usize,
    attributes: Map<metadata::AttributeKey, Seq<char>>,
    stored: Option<Seq<u8>>,
)
    ensures
        metadata_on(refs, shard, attributes, stored) matches Some(b) ==> b.len() > 0,
        refs.kind_of(shard) != ShardKind::S3Like && stored is None ==> metadata_on(
            refs,
            shard,
            attributes,
            stored,
        ) is None,
        refs.kind_of(shard) == ShardKind::Raw && refs.raw(shard) is None ==> metadata_on(
            refs,
            shard,
            attributes,
            stored,
        ) is None,
{
}

/// What is asked of metadata is asked of the shards of which a read would ask the object,
/// in the same order. Only a delete marker is not asked for, and only a cluster that is
/// read-only records no length.
pub proof fn metadata_is_asked_for_where_the_object_is(
    c: store::ClusterState,
    op: MetaOp,
    key: Seq<char>,
    hash: u32,
)
    ensures
        ({
            let (after, s) = ask_begun(c, op, key, hash);
            let (read, r) = read::read_begun(c, read::ReadKind::RawGet, key, hash);
            &&& s is None <==> if op == MetaOp::SetLen {
                c.read_only
            } else {
                markers::is_marker(key)
            }
            &&& s is None ==> after == c
            &&& s matches Some(s) ==> after == read && s.order == r->0.order && s.op == op && s.key
                == key && s.asked == 0 && s.last_error is None
        }),
{
}

/// A shard of the order is asked through its raw store if it has one, and else through
/// its store: for the sidecar if the metadata is wanted and the shard keeps it there. A
/// shard that keeps no length has nothing to record.
pub proof fn a_shard_is_asked_where_it_keeps_metadata(
    n: nat,
    refs: metadata::Registry,
    s: AskState,
)
    requires
        s.asked < s.order.len(),
        s.order[s.asked as int] < n,
    ensures
        ({
            let shard = s.order[s.asked as int];
            let (next, step) = ask_next(n, refs, s);
            &&& next == s
            &&& refs.raw(shard) matches Some(h) ==> step == (StepSpec::AskRaw { shard, raw: h })
            &&& refs.raw(shard) is None && s.op == MetaOp::SetLen ==> step == StepSpec::Accepted
            &&& refs.raw(shard) is None && s.op == MetaOp::Head ==> step == (StepSpec::AskStore {
                shard,
                sidecar: None,
            })
            &&& refs.raw(shard) is None && s.op == MetaOp::Read ==> (step matches StepSpec::AskStore {
                shard: id,
                sidecar,
            } && id == shard && (refs.kind_of(shard) == ShardKind::Sidecar ==> sidecar == Some(
                metadata::sidecar_of(s.key),
            )) && (refs.kind_of(shard) != ShardKind::Sidecar ==> sidecar is None))
        }),
{
}

/// A shard that does not give what is asked does not end the question: the next of the
/// order is asked, and only after the last is there an error, which is the last of those
/// that a head has met.
pub proof fn the_next_shard_is_asked_after_a_miss(
    n: nat,
    refs: metadata::Registry,
    s: AskState,
    error: Option<Seq<char>>,
)
    requires
        s.asked < s.order.len(),
        forall|i: int| 0 <= i < s.order.len() ==> (#[trigger] s.order[i]) < n,
    ensures
        ({
            let (next, step) = ask_next(n, refs, ask_missed(s, error));
            let last = if s.op == MetaOp::Head && error is Some {
                error
            } else {
                s.last_error
            };
            &&& s.asked + 1 < s.order.len() ==> {
                let shard = s.order[s.asked as int + 1];
                match step {
                    StepSpec::AskRaw { shard: id, .. } => id == shard,
                    StepSpec::AskStore { shard: id, .. } => id == shard,
                    StepSpec::Accepted => s.op == MetaOp::SetLen && refs.raw(shard) is None,
                    _ => false,
                }
            }
            &&& s.asked + 1 == s.order.len() ==> step == match last {
                Some(m) => StepSpec::Failed(m),
                None => StepSpec::NotFound,
            }
        }),
{
    if s.asked + 1 < s.order.len() {
        assert(s.order[s.asked as int + 1] < n);
    }
}

/// Whether an object that a shard lists is shown: it is no delete marker, and no sidecar
/// on a shard that keeps those.
pub open spec fn shown(refs: metadata::Registry, shard: usize, location: Seq<char>) -> bool {
    !markers::is_marker(location) && !(refs.raw(shard) is None && refs.kind_of(shard)
        == ShardKind::Sidecar && metadata::names_sidecar(location))
}

proof fn lemma_includes_listed(
    list: Seq<MetaSpec>,
    refs: metadata::Registry,
    shard: usize,
    objects: Seq<MetaSpec>,
    location: Seq<char>,
)
    ensures
        includes(objects_listed(list, refs, shard, objects), location) <==> includes(list, location)
            || (includes(objects, location) && shown(refs, shard, location)),
    decreases objects.len(),
{
    if objects.len() > 0 {
        let head = objects.drop_last();
        let o = objects.last();
        lemma_includes_listed(list, refs, shard, head, location);
        let before = objects_listed(list, refs, shard, head);
        let after = object_listed(before, refs, shard, o);
        if includes(head, location) {
            let i = choose|i: int| 0 <= i < head.len() && (#[trigger] head[i]).0.location == location;
            assert(objects[i].0.location == location);
        }
        if includes(objects, location) {
            let i = choose|i: int|
                0 <= i < objects.len() && (#[trigger] objects[i]).0.location == location;
            if i < head.len() {
                assert(head[i].0.location == location);
            }
        }
        assert(objects[objects.len() - 1] == o);
        if includes(before, location) {
            let i = choose|i: int|
                0 <= i < before.len() && (#[trigger] before[i]).0.location == location;
            assert(after[i].0.location == location);
        }
        if includes(after, location) {
            let i = choose|i: int|
                0 <= i < after.len() && (#[trigger] after[i]).0.location == location;
            if i < before.len() {
                assert(before[i].0.location == location);
            }
        }
        if after.len() > before.len() {
            assert(after[before.len() as int].0 == o.0);
        }
    }
}

/// A listing of all shards shows every object that a shard lists which is listed at all,
/// and no other.
pub proof fn a_listing_of_all_shards_shows_every_object(
    n: nat,
    refs: metadata::Registry,
    lists: Seq<Seq<MetaSpec>>,
    location: Seq<char>,
)
    requires
        lists.len() <= usize::MAX,
    ensures
        includes(all_listed(n, refs, lists), location) <==> exists|i: int|
            0 <= i < lists.len() && (refs.raw(i as usize) is Some || i < n) && includes(
                #[trigger] lists[i],
                location,
            ) && shown(refs, i as usize, location),
    decreases lists.len(),
{
    if lists.len() > 0 {
        let head = lists.drop_last();
        let k = lists.len() - 1;
        a_listing_of_all_shards_shows_every_object(n, refs, head, location);
        lemma_includes_listed(all_listed(n, refs, head), refs, k as usize, lists.last(), location);
        if includes(all_listed(n, refs, head), location) {
            let i = choose|i: int|
                0 <= i < head.len() && (refs.raw(i as usize) is Some || i < n) && includes(
                    #[trigger] head[i],
                    location,
                ) && shown(refs, i as usize, location);
            assert(lists[i] == head[i]);
        }
        if exists|i: int|
            0 <= i < lists.len() && (refs.raw(i as usize) is Some || i < n) && includes(
                #[trigger] lists[i],
                location,
            ) && shown(refs, i as usize, location) {
            let i = choose|i: int|
                0 <= i < lists.len() && (refs.raw(i as usize) is Some || i < n) && includes(
                    #[trigger] lists[i],
                    location,
                ) && shown(refs, i as usize, location);
            if i < k {
                assert(head[i] == lists[i]);
            }
        }
        assert(lists[k] == lists.last());
    }
}

/// The sidecar of an object is deleted from those shards for the object that keep
/// sidecars, unless the cluster is read-only.
pub proof fn a_sidecar_is_deleted_where_it_may_be(
    c: store::ClusterState,
    refs: metadata::Registry,
    hash: u32,
    id: usize,
)
    ensures
        sidecar_shards(c, refs, hash).contains(id) <==> !c.read_only && placement::targets(
            c.shards,
            c.rf,
            hash,
        ).contains(id) && refs.kind_of(id) == ShardKind::Sidecar && id < c.shards.len(),
{
    let t = placement::targets(c.shards, c.rf, hash);
    let pred = |id: usize| refs.kind_of(id) == ShardKind::Sidecar && id < c.shards.len();
    writes::lemma_kept(t, pred, id);
    assert(!Seq::<usize>::empty().contains(id));
}

/// The metadata of an object is left unread when it is copied only if nothing is known of
/// the shards, or if the catalog says that it has none and no shard that holds it is
/// S3-like.
pub proof fn metadata_is_read_unless_there_is_none(c: store::ClusterState, key: Seq<char>)
    ensures
        !wants_metadata(c, key) <==> c.refs is None || (c.entries.contains_key(key)
            && c.entries[key].meta_len == 0 && forall|i: int|
            0 <= i < c.entries[key].shards.len() ==> (c.refs->0).kind_of(
                #[trigger] c.entries[key].shards[i],
            ) != ShardKind::S3Like),
{
}

} // verus!
