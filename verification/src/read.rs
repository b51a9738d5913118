//! Reading an object: one shard after the other until one has it.
//!
//! A read looks on the shards of the catalog entry, or on all of them if there is no
//! entry. Corrupt data that it comes across is taken out of the catalog, and repaired
//! from the shard that had it whole.

use vstd::prelude::*;
use vstd::string::*;
use crate::catalog;
use crate::digest::crc32c;
use crate::ids;
use crate::ids::ShardId;
use crate::markers;
use crate::placement;
use crate::put;
use crate::store;
use crate::store::ShardedObjectStore;
use crate::text;
use crate::text::contains;
use crate::time::Timestamp;
use crate::writes;

verus! {

/// What kind of read this is.
#[derive(Debug, Clone, Copy, PartialEq, Eq, Structural)]
pub enum ReadKind {
    /// The body of an object. Delete markers are hidden.
    Get,
    /// What is known of an object. Delete markers are hidden.
    Head,
    /// The body of an object or a delete marker.
    RawGet,
    /// What is known of an object or a delete marker.
    RawHead,
}

impl ReadKind {
    /// Whether this read hides delete markers.
    pub open spec fn hides_markers(self) -> bool {
        self == ReadKind::Get || self == ReadKind::Head
    }

    fn hides(&self) -> (r: bool)
        ensures
            r == self.hides_markers(),
    {
        match self {
            ReadKind::Get | ReadKind::Head => true,
            _ => false,
        }
    }
}

/// A read in progress.
pub struct ReadState {
    pub kind: ReadKind,
    pub key: Seq<char>,
    /// The shards to look on, in order.
    pub order: Seq<usize>,
    /// How many of them have been asked.
    pub asked: nat,
    /// Whether the catalog had no entry.
    pub fallback: bool,
    /// The shards that turned out to hold corrupt data.
    pub corrupted: Seq<usize>,
}

/// What a shard has answered.
#[derive(Debug)]
pub enum ReadAnswer {
    /// It has the object. Where the catalog had no entry: the size that a head of it
    /// gave, if it gave one, and the size and length of metadata that its raw store
    /// gave, if it has one that did.
    Found { head_size: Option<u64>, raw: Option<(u64, u16)> },
    /// It does not, or could not answer, with the error in words.
    Failed(String),
}

/// What a shard has answered.
pub enum AnswerSpec {
    Found { head_size: Option<u64>, raw: Option<(u64, u16)> },
    Failed(Seq<char>),
}

impl View for ReadAnswer {
    type V = AnswerSpec;

    open spec fn view(&self) -> AnswerSpec {
        match *self {
            ReadAnswer::Found { head_size, raw } => AnswerSpec::Found { head_size, raw },
            ReadAnswer::Failed(m) => AnswerSpec::Failed(m@),
        }
    }
}

/// What comes next in a read.
pub enum StepSpec {
    Ask(usize),
    Done { shard: usize, repairs: Seq<usize> },
    NotFound,
    LastError,
}

/// What comes next in a read.
#[derive(Debug)]
pub enum ReadStep {
    /// Ask this shard.
    Ask(ShardId),
    /// Return what this shard has answered, and repair the object on the `repairs`
    /// shards from it.
    Done { shard: ShardId, repairs: Vec<ShardId> },
    /// There is no such object.
    NotFound,
    /// Return the error of the shard that was asked last.
    LastError,
}

impl View for ReadStep {
    type V = StepSpec;

    open spec fn view(&self) -> StepSpec {
        match *self {
            ReadStep::Ask(id) => StepSpec::Ask(id),
            ReadStep::Done { shard, repairs } => StepSpec::Done { shard, repairs: repairs@ },
            ReadStep::NotFound => StepSpec::NotFound,
            ReadStep::LastError => StepSpec::LastError,
        }
    }
}

// -- Errors -----------------------------------------------------------------

/// Whether an error in words is about corrupt data.
pub open spec fn is_corruption(message: Seq<char>) -> bool {
    text::has_substring(message, "data corruption"@)
}

/// The cluster after a shard turned out to hold corrupt data: the error is counted,
/// and the catalog no longer lists the shard for the object.
pub open spec fn corruption_noted(c: store::ClusterState, id: usize, key: Seq<char>) -> store::ClusterState {
    if id < c.shards.len() {
        let s = c.shards[id as int];
        let counted = store::with_shard(
            c,
            id,
            store::ShardInfo {
                crc_error_count: ((s.crc_error_count + 1) % 0x1_0000_0000_0000_0000) as u64,
                ..s
            },
        );
        store::ClusterState {
            entries: catalog::shard_removed(c.entries, key, id),
            dirty: c.dirty || c.entries.contains_key(key),
            ..counted
        }
    } else {
        c
    }
}

/// The cluster after a shard has failed to give an object.
pub open spec fn error_handled(
    c: store::ClusterState,
    id: usize,
    key: Seq<char>,
    message: Seq<char>,
) -> store::ClusterState {
    if is_corruption(message) {
        corruption_noted(c, id, key)
    } else {
        c
    }
}

impl ShardedObjectStore {
    /// Handles the error of a shard: if it is about corrupt data, counts it and takes
    /// the shard out of the catalog entry. Whether it is.
    pub fn handle_read_error(&mut self, shard_id: ShardId, key: &str, message: &str) -> (corrupt:
        bool)
        ensures
            corrupt == is_corruption(message@),
            final(self)@ == error_handled(old(self)@, shard_id, key@, message@),
            store::valid(old(self)@) ==> store::valid(final(self)@),
    {
        if !contains(message, "data corruption") {
            return false;
        }
        if let Some(s) = self.shard_info(shard_id) {
            let mut s = s;
            s.crc_error_count = s.crc_error_count.wrapping_add(1);
            self.store_shard(shard_id, s);
            self.catalog_mut().remove_shard(key, shard_id);
        }
        true
    }
}

// -- Repairs ----------------------------------------------------------------

/// Whether a shard can take part in a repair.
pub open spec fn can_repair(c: store::ClusterState, id: usize) -> bool {
    id < c.shards.len() && !c.shards[id as int].health.unavailable()
}

/// The repairs to begin from a shard, of those that are wanted: both shards must be
/// available.
pub open spec fn repairs_begun(c: store::ClusterState, good: usize, bad: Seq<usize>) -> Seq<usize> {
    bad.filter(|id: usize| can_repair(c, good) && can_repair(c, id))
}

/// The cluster after repairs were begun, each of which is counted.
pub open spec fn repairs_counted(c: store::ClusterState, n: nat) -> store::ClusterState {
    store::ClusterState {
        repairs_started: ((c.repairs_started + n) % 0x1_0000_0000_0000_0000) as u64,
        ..c
    }
}

/// The cluster after a repair has ended: the shard is listed again, with the size and
/// length of metadata that were written, or the failure is counted.
pub open spec fn repair_ended(
    c: store::ClusterState,
    key: Seq<char>,
    bad: usize,
    written: Option<(u64, u16)>,
    now: Timestamp,
) -> store::ClusterState {
    match written {
        Some((size, meta_len)) => store::ClusterState {
            repairs_done: ((c.repairs_done + 1) % 0x1_0000_0000_0000_0000) as u64,
            ..put::with_entries(c, catalog::replica_added(c.entries, key, bad, size, meta_len, now))
        },
        None => store::ClusterState {
            repairs_failed: ((c.repairs_failed + 1) % 0x1_0000_0000_0000_0000) as u64,
            ..c
        },
    }
}

impl ShardedObjectStore {
    fn available_for_repair(&self, id: ShardId) -> (r: bool)
        ensures
            r == can_repair(self@, id),
    {
        match self.shard_health(id) {
            Some(h) => !h.is_unavailable(),
            None => false,
        }
    }

    /// Begins and counts the repairs of an object on some shards from another one.
    /// Those to carry out.
    pub fn schedule_read_repair(&mut self, good_shard: ShardId, corrupt_shards: &[ShardId]) -> (r: Vec<
        ShardId,
    >)
        ensures
            r@ == repairs_begun(old(self)@, good_shard, corrupt_shards@),
            final(self)@ == repairs_counted(old(self)@, r@.len()),
            store::valid(old(self)@) ==> store::valid(final(self)@),
    {
        let ghost c = self@;
        let ghost pred = |id: usize| can_repair(c, good_shard) && can_repair(c, id);
        let mut r: Vec<ShardId> = Vec::new();
        let mut i: usize = 0;
        proof {
            placement::lemma_filter_none(corrupt_shards@, pred);
            assert((|id: usize| can_repair(c, good_shard) && can_repair(c, id)) =~= (|id: usize|
                can_repair(old(self)@, good_shard) && can_repair(old(self)@, id)));
        }
        while i < corrupt_shards.len()
            invariant
                i <= corrupt_shards.len(),
                c == old(self)@,
                pred == (|id: usize| can_repair(c, good_shard) && can_repair(c, id)),
                r@ == corrupt_shards@.take(i as int).filter(pred),
                r@.len() <= i,
                self@ == repairs_counted(c, r@.len()),
                store::valid(c) ==> store::valid(self@),
            decreases corrupt_shards.len() - i,
        {
            proof {
                placement::lemma_filter_step(corrupt_shards@, i as int, pred);
            }
            if self.available_for_repair(good_shard) && self.available_for_repair(
                corrupt_shards[i],
            ) {
                let ghost n = r@.len() as int;
                self.count_repair_started();
                r.push(corrupt_shards[i]);
                assert(self@ == repairs_counted(c, r@.len())) by {
                    let m: int = 0x1_0000_0000_0000_0000;
                    assert(((c.repairs_started + n) % m + 1) % m == (c.repairs_started + (n + 1))
                        % m) by {
                        vstd::arithmetic::div_mod::lemma_add_mod_noop(
                            c.repairs_started + n,
                            1,
                            m,
                        );
                        vstd::arithmetic::div_mod::lemma_small_mod(1nat, m as nat);
                    }
                }
            }
            i = i + 1;
        }
        assert(corrupt_shards@.take(i as int) =~= corrupt_shards@);
        r
    }

    /// Ends a repair: what was written, if it was.
    pub fn end_read_repair(
        &mut self,
        key: &str,
        corrupt_shard: ShardId,
        written: Option<(u64, usize)>,
        now: Timestamp,
    )
        ensures
            final(self)@ == repair_ended(
                old(self)@,
                key@,
                corrupt_shard,
                (match written {
                    Some((size, meta_len)) => Some((size, meta_len as u16)),
                    None => None,
                }),
                now,
            ),
            store::valid(old(self)@) ==> store::valid(final(self)@),
    {
        match written {
            Some((size, meta_len)) => {
                self.catalog_mut().add_replica_at(key, corrupt_shard, size, meta_len as u16, now);
                self.count_repair_ended(true);
            },
            None => {
                self.count_repair_ended(false);
            },
        }
    }
}

// -- One read ---------------------------------------------------------------

/// The cluster and the read when it begins. The delete marker of an object is no
/// object to a read that hides it.
pub open spec fn read_begun(c: store::ClusterState, kind: ReadKind, key: Seq<char>, hash: u32) -> (
    store::ClusterState,
    Option<ReadState>,
) {
    if kind.hides_markers() && markers::is_marker(key) {
        (c, None)
    } else {
        let ids = placement::candidates(c, key, hash);
        (
            placement::order_taken(c, ids),
            Some(
                ReadState {
                    kind,
                    key,
                    order: placement::read_order(c, ids),
                    asked: 0,
                    fallback: !c.entries.contains_key(key),
                    corrupted: Seq::empty(),
                },
            ),
        )
    }
}

/// What comes next, before the next shard has answered.
pub open spec fn read_next(r: ReadState) -> StepSpec {
    if r.asked < r.order.len() {
        StepSpec::Ask(r.order[r.asked as int])
    } else if r.order.len() == 0 {
        StepSpec::NotFound
    } else {
        StepSpec::LastError
    }
}

/// The size and length of metadata to record of an object that the catalog had no
/// entry for. Only a raw store tells the length of metadata.
pub open spec fn recovered(
    c: store::ClusterState,
    kind: ReadKind,
    shard: usize,
    head_size: Option<u64>,
    raw: Option<(u64, u16)>,
) -> (u64, u16) {
    let size = match head_size {
        Some(n) => n,
        None => 0,
    };
    let told = if c.refs is Some && c.refs->0.raw(shard) is Some {
        raw
    } else {
        None
    };
    match (kind, told) {
        (ReadKind::Get, Some((raw_size, meta_len))) => (raw_size, meta_len),
        (ReadKind::Head, Some((_, meta_len))) => (size, meta_len),
        _ => (size, 0),
    }
}

/// The cluster, the read and what comes next, after the shard that was asked has
/// answered.
pub open spec fn read_reported(
    c: store::ClusterState,
    r: ReadState,
    answer: AnswerSpec,
    now: Timestamp,
) -> (store::ClusterState, ReadState, StepSpec) {
    let shard = r.order[r.asked as int];
    let next = ReadState { asked: r.asked + 1, ..r };
    match answer {
        AnswerSpec::Found { head_size, raw } => {
            let (size, meta_len) = recovered(c, r.kind, shard, head_size, raw);
            let after = if r.fallback {
                put::with_entries(
                    c,
                    catalog::replica_added(c.entries, r.key, shard, size, meta_len, now),
                )
            } else {
                c
            };
            (
                repairs_counted(after, repairs_begun(after, shard, r.corrupted).len()),
                next,
                StepSpec::Done { shard, repairs: repairs_begun(after, shard, r.corrupted) },
            )
        },
        AnswerSpec::Failed(message) => if r.kind == ReadKind::Get {
            let after = ReadState {
                corrupted: if is_corruption(message) {
                    r.corrupted.push(shard)
                } else {
                    r.corrupted
                },
                ..next
            };
            (error_handled(c, shard, r.key, message), after, read_next(after))
        } else {
            (c, next, read_next(next))
        },
    }
}

/// A read in progress.
#[derive(Debug)]
pub struct ReadJob {
    kind: ReadKind,
    key: String,
    order: Vec<ShardId>,
    asked: usize,
    fallback: bool,
    corrupted: Vec<ShardId>,
}

impl View for ReadJob {
    type V = ReadState;

    closed spec fn view(&self) -> ReadState {
        ReadState {
            kind: self.kind,
            key: self.key@,
            order: self.order@,
            asked: self.asked as nat,
            fallback: self.fallback,
            corrupted: self.corrupted@,
        }
    }
}

/// A read that may be refused, in the terms of the model.
pub open spec fn job_view(r: Option<ReadJob>) -> Option<ReadState> {
    match r {
        Some(j) => Some(j@),
        None => None,
    }
}

impl ReadJob {
    /// Begins a read, unless there can be no such object.
    pub fn begin(store: &mut ShardedObjectStore, kind: ReadKind, key: &str) -> (r: Option<ReadJob>)
        ensures
            (final(store)@, job_view(r)) == read_begun(
                old(store)@,
                kind,
                key@,
                placement::key_hash(key@),
            ),
            store::valid(old(store)@) ==> store::valid(final(store)@),
    {
        let hash: u32 = crc32c(key.as_bytes());
        Self::begin_for_hash(store, kind, key, hash)
    }

    /// Begins a read, given the hash of the key, unless there can be no such object.
    pub fn begin_for_hash(store: &mut ShardedObjectStore, kind: ReadKind, key: &str, hash: u32) -> (r:
        Option<ReadJob>)
        ensures
            (final(store)@, job_view(r)) == read_begun(old(store)@, kind, key@, hash),
            store::valid(old(store)@) ==> store::valid(final(store)@),
    {
        if kind.hides() && ShardedObjectStore::is_delete_marker(key) {
            return None;
        }
        let (order, fallback) = store.resolve_shards_for_hash(key, hash);
        let job = ReadJob {
            kind,
            key: key.to_owned(),
            order,
            asked: 0,
            fallback,
            corrupted: Vec::new(),
        };
        assert(job@.corrupted =~= Seq::<usize>::empty());
        Some(job)
    }

    /// What comes next.
    pub fn next(&self) -> (step: ReadStep)
        ensures
            step@ == read_next(self@),
    {
        if self.asked < self.order.len() {
            ReadStep::Ask(self.order[self.asked])
        } else if self.order.len() == 0 {
            ReadStep::NotFound
        } else {
            ReadStep::LastError
        }
    }

    /// Takes what the shard that was asked has answered.
    pub fn report(&mut self, store: &mut ShardedObjectStore, answer: &ReadAnswer, now: Timestamp) -> (step:
        ReadStep)
        requires
            read_next(old(self)@) is Ask,
        ensures
            (final(store)@, final(self)@, step@) == read_reported(
                old(store)@,
                old(self)@,
                answer@,
                now,
            ),
            store::valid(old(store)@) ==> store::valid(final(store)@),
    {
        let n: usize = self.order.len();
        let shard: usize = self.order[self.asked];
        assert(self.asked < n);
        self.asked = self.asked + 1;
        match answer {
            ReadAnswer::Found { head_size, raw } => {
                if self.fallback {
                    let size: u64 = match head_size {
                        Some(n) => *n,
                        None => 0,
                    };
                    let has_raw = match store.raw_refs() {
                        Some(refs) => refs.get(shard).is_some(),
                        None => false,
                    };
                    let (size, meta_len): (u64, u16) = match raw {
                        Some((raw_size, meta_len)) if has_raw => {
                            match self.kind {
                                ReadKind::Get => (*raw_size, *meta_len),
                                ReadKind::Head => (size, *meta_len),
                                _ => (size, 0),
                            }
                        },
                        _ => (size, 0),
                    };
                    store.catalog_mut().add_replica_at(
                        self.key.as_str(),
                        shard,
                        size,
                        meta_len,
                        now,
                    );
                }
                let repairs = store.schedule_read_repair(shard, self.corrupted.as_slice());
                ReadStep::Done { shard, repairs }
            },
            ReadAnswer::Failed(message) => {
                if self.kind == ReadKind::Get {
                    if store.handle_read_error(shard, self.key.as_str(), message.as_str()) {
                        self.corrupted.push(shard);
                    }
                }
                self.next()
            },
        }
    }
}

// -- Laws -------------------------------------------------------------------

/// With every answer a read moves on by one place in its order, and it ends at the
/// end of it.
pub proof fn a_read_moves_on_with_every_answer(
    c: store::ClusterState,
    r: ReadState,
    answer: AnswerSpec,
    now: Timestamp,
)
    requires
        read_next(r) is Ask,
    ensures
        ({
            let (_, after, step) = read_reported(c, r, answer, now);
            &&& after.order == r.order
            &&& after.asked == r.asked + 1
            &&& after.asked <= after.order.len()
            &&& step matches StepSpec::Ask(id) ==> id == r.order[r.asked as int + 1]
        }),
{
}

/// A shard with corrupt data is no longer listed for the object, and all other shards
/// and objects are listed as before.
pub proof fn a_corrupt_copy_is_no_longer_listed(
    c: store::ClusterState,
    id: usize,
    key: Seq<char>,
    message: Seq<char>,
)
    requires
        is_corruption(message),
        id < c.shards.len(),
    ensures
        ({
            let after = error_handled(c, id, key, message);
            &&& after.entries.contains_key(key) ==> !after.entries[key].shards.contains(id)
            &&& forall|other: usize|
                other != id && c.entries.contains_key(key) && #[trigger] c.entries[key].shards.contains(
                    other,
                ) ==> after.entries.contains_key(key) && after.entries[key].shards.contains(other)
            &&& forall|k: Seq<char>|
                k != key ==> (#[trigger] after.entries.contains_key(k) == c.entries.contains_key(k)
                    && (c.entries.contains_key(k) ==> after.entries[k] == c.entries[k]))
        }),
{
    if c.entries.contains_key(key) {
        let held = c.entries[key].shards;
        ids::lemma_without(held, id);
        assert forall|other: usize| other != id && #[trigger] held.contains(
            other,
        ) implies ids::without(held, id).len() > 0 && ids::without(held, id).contains(other) by {
            assert(ids::without(held, id).contains(other));
        }
    }
}

/// A read that found corrupt data and then the whole object repairs each corrupt copy
/// whose shard is available, if the shard with the whole object is.
pub proof fn a_read_repairs_what_it_found_corrupt(
    c: store::ClusterState,
    r: ReadState,
    head_size: Option<u64>,
    raw: Option<(u64, u16)>,
    now: Timestamp,
    bad: usize,
)
    requires
        read_next(r) is Ask,
        r.corrupted.contains(bad),
        can_repair(c, bad),
        can_repair(c, r.order[r.asked as int]),
    ensures
        ({
            let answer = AnswerSpec::Found { head_size, raw };
            read_reported(c, r, answer, now).2 matches StepSpec::Done { repairs, .. }
                && repairs.contains(bad)
        }),
{
    let answer = AnswerSpec::Found { head_size, raw };
    let shard = r.order[r.asked as int];
    let (size, meta_len) = recovered(c, r.kind, shard, head_size, raw);
    let after = if r.fallback {
        put::with_entries(c, catalog::replica_added(c.entries, r.key, shard, size, meta_len, now))
    } else {
        c
    };
    let pred = |id: usize| can_repair(after, shard) && can_repair(after, id);
    r.corrupted.lemma_filter_contains(pred, r.corrupted.index_of(bad));
}

/// A read of an object with a catalog entry asks every readable shard of the entry, and
/// no other.
pub proof fn a_read_asks_the_readable_shards_of_the_entry(
    c: store::ClusterState,
    kind: ReadKind,
    key: Seq<char>,
    hash: u32,
)
    requires
        c.shards.len() <= usize::MAX,
        c.entries.contains_key(key),
        !(kind.hides_markers() && markers::is_marker(key)),
    ensures
        read_begun(c, kind, key, hash).1 matches Some(r) && !r.fallback && r.asked == 0
            && forall|id: usize| #[trigger]
            r.order.contains(id) <==> c.entries[key].shards.contains(id) && placement::is_readable(
                c.shards,
                id,
            ),
{
    let held = c.entries[key].shards;
    let pred = |id: usize| placement::is_readable(c.shards, id);
    let ids = held.filter(pred);
    catalog::lemma_filter_members(held, pred);
    placement::a_read_order_holds_exactly_the_candidates(c, ids);
    assert forall|id: usize| ids.contains(id) <==> held.contains(id) && pred(id) by {
        if held.contains(id) && pred(id) {
            held.lemma_filter_contains(pred, held.index_of(id));
        }
    }
}

/// What was put is read back from a shard that took it: after a put that succeeded, a
/// read asks only such shards, starts with one if one of them is readable, and ends
/// there if that shard has the object.
pub proof fn what_was_put_is_read_from_a_shard_that_took_it(
    c: store::ClusterState,
    p: put::PutState,
    results: Seq<Option<Seq<char>>>,
    put_hash: u32,
    now: Timestamp,
    kind: ReadKind,
    hash: u32,
    head_size: Option<u64>,
    raw: Option<(u64, u16)>,
    later: Timestamp,
)
    requires
        c.shards.len() <= usize::MAX,
        !(kind.hides_markers() && markers::is_marker(p.key)),
    ensures
        put::put_reported(c, p, results, put_hash, now).2 matches writes::StepSpec::Done(placed)
            ==> ({
            let after = put::put_reported(c, p, results, put_hash, now).0;
            let (reading, job) = read_begun(after, kind, p.key, hash);
            (exists|id: usize| #[trigger]
                placed.contains(id) && placement::is_readable(after.shards, id)) ==> (job matches Some(
                r,
            ) && (forall|i: int|
                0 <= i < r.order.len() ==> placed.contains(#[trigger] r.order[i])) && (read_next(
                r,
            ) matches StepSpec::Ask(id) && placed.contains(id) && (read_reported(
                reading,
                r,
                AnswerSpec::Found { head_size, raw },
                later,
            ).2 matches StepSpec::Done { shard, .. } && shard == id)))
        }),
{
    if let writes::StepSpec::Done(placed) = put::put_reported(c, p, results, put_hash, now).2 {
        put::a_put_that_succeeds_is_recorded(c, p, results, put_hash, now);
        writes::a_retry_goes_to_other_shards(c, p.write, results, put_hash, now);
        let after = put::put_reported(c, p, results, put_hash, now).0;
        a_read_asks_the_readable_shards_of_the_entry(after, kind, p.key, hash);
        let r = read_begun(after, kind, p.key, hash).1->0;
        assert forall|i: int| 0 <= i < r.order.len() implies placed.contains(
            #[trigger] r.order[i],
        ) by {
            assert(r.order.contains(r.order[i]));
        }
        if exists|id: usize| #[trigger]
            placed.contains(id) && placement::is_readable(after.shards, id) {
            let id = choose|id: usize| #[trigger]
                placed.contains(id) && placement::is_readable(after.shards, id);
            assert(r.order.contains(id));
            assert(placed.contains(r.order[0]));
        }
    }
}

/// A shard that fails to give an object does not end the read: whatever it says, and
/// whatever kind of read this is, the next shard of the order is asked, as long as there
/// is one. Only after the last is its error returned.
pub proof fn a_read_asks_on_after_a_failure(
    c: store::ClusterState,
    r: ReadState,
    message: Seq<char>,
    now: Timestamp,
)
    requires
        read_next(r) is Ask,
    ensures
        ({
            let step = read_reported(c, r, AnswerSpec::Failed(message), now).2;
            if r.asked + 1 < r.order.len() {
                step == StepSpec::Ask(r.order[r.asked as int + 1])
            } else {
                step == StepSpec::LastError
            }
        }),
{
}

/// Delete markers are hidden from plain reads, and from these alone. Everything else can
/// be read.
pub proof fn only_delete_markers_are_hidden(
    c: store::ClusterState,
    kind: ReadKind,
    key: Seq<char>,
    hash: u32,
)
    ensures
        read_begun(c, kind, key, hash).1 is None <==> markers::is_marker(key) && (kind
            == ReadKind::Get || kind == ReadKind::Head),
        read_begun(c, kind, key, hash).1 matches Some(r) ==> r.kind == kind && r.key == key
            && r.asked == 0 && r.corrupted.len() == 0 && (r.fallback <==> !c.entries.contains_key(
            key,
        )),
{
}

/// A read of an object that the catalog does not have asks every shard that works, each
/// once. Without such a shard there is no such object.
pub proof fn a_read_without_an_entry_asks_every_shard(
    c: store::ClusterState,
    kind: ReadKind,
    key: Seq<char>,
    hash: u32,
)
    requires
        c.shards.len() <= usize::MAX,
        !c.entries.contains_key(key),
        !(kind.hides_markers() && markers::is_marker(key)),
    ensures
        read_begun(c, kind, key, hash).1 matches Some(r) && r.fallback && r.order.no_duplicates()
            && (forall|id: usize| #[trigger]
            r.order.contains(id) <==> id < c.shards.len() && (c.shards[id as int].health
                == store::ShardHealth::Healthy || c.shards[id as int].health
                == store::ShardHealth::Degraded)) && (read_next(r) == StepSpec::NotFound <==> (
        forall|i: int|
            0 <= i < c.shards.len() ==> (#[trigger] c.shards[i]).health
                != store::ShardHealth::Healthy && c.shards[i].health
                != store::ShardHealth::Degraded)),
{
    let n = c.shards.len();
    let h = placement::home_of(hash, n);
    let ring = placement::ring(h, n);
    let pred = |id: usize| placement::is_readable(c.shards, id);
    let ids = ring.filter(pred);
    if n > 0 {
        placement::lemma_home(hash, n);
        placement::lemma_ring(h, n);
    } else {
        assert forall|id: usize| !ring.contains(id) by {}
    }
    assert(ring.no_duplicates());
    placement::lemma_filter_distinct(ring, pred);
    assert forall|i: int| 0 <= i < ids.len() implies (#[trigger] ids[i]) < n by {
        assert(ids.contains(ids[i]));
    }
    assert(placement::candidates(c, key, hash) == ids);
    placement::a_read_order_holds_exactly_the_candidates(c, ids);
    placement::lemma_order_unique(c, ids);
    let r = read_begun(c, kind, key, hash).1->0;
    assert forall|id: usize| id < n implies ring.contains(id) by {}
    if r.order.len() == 0 {
        assert forall|i: int| 0 <= i < n implies (#[trigger] c.shards[i]).health
            != store::ShardHealth::Healthy && c.shards[i].health != store::ShardHealth::Degraded by {
            assert(!r.order.contains(i as usize));
        }
    } else {
        assert(r.order.contains(r.order[0]));
    }
}

/// A read that finds the object returns what the shard that was asked has answered. If
/// the catalog had no entry, the shard is listed from then on, and otherwise the catalog
/// stays as it is. Repairs are begun on the corrupt copies alone.
pub proof fn a_read_ends_where_the_object_is_found(
    c: store::ClusterState,
    r: ReadState,
    head_size: Option<u64>,
    raw: Option<(u64, u16)>,
    now: Timestamp,
)
    requires
        read_next(r) is Ask,
    ensures
        ({
            let shard = r.order[r.asked as int];
            let (after, _, step) = read_reported(c, r, AnswerSpec::Found { head_size, raw }, now);
            &&& step matches StepSpec::Done { shard: id, repairs } && id == shard && forall|i: int|
                0 <= i < repairs.len() ==> r.corrupted.contains(#[trigger] repairs[i])
            &&& !r.fallback ==> after.entries == c.entries && after.dirty == c.dirty
            &&& r.fallback ==> after.entries.contains_key(r.key)
                && after.entries[r.key].shards.contains(shard) && after.dirty && forall|k: Seq<char>|
                k != r.key ==> (#[trigger] after.entries.contains_key(k) == c.entries.contains_key(
                    k,
                )) && after.entries[k] == c.entries[k]
            &&& after.shards == c.shards && after.rf == c.rf
        }),
{
    let shard = r.order[r.asked as int];
    let (size, meta_len) = recovered(c, r.kind, shard, head_size, raw);
    catalog::a_replica_that_was_found_is_listed(c.entries, r.key, shard, size, meta_len, now);
    let after = if r.fallback {
        put::with_entries(c, catalog::replica_added(c.entries, r.key, shard, size, meta_len, now))
    } else {
        c
    };
    catalog::lemma_filter_members(
        r.corrupted,
        |id: usize| can_repair(after, shard) && can_repair(after, id),
    );
}

/// What is recorded of an object that the catalog had no entry for: the size that the
/// head gave, or, for a read of the body, the one that the raw store gave; the length of
/// metadata that the raw store gave for these two, if the shard has one. Where nothing
/// was told, zero.
pub proof fn what_was_told_of_an_object_is_recorded(
    c: store::ClusterState,
    r: ReadState,
    head_size: Option<u64>,
    raw_size: u64,
    raw_len: u16,
    now: Timestamp,
)
    requires
        read_next(r) is Ask,
        r.fallback,
        !c.entries.contains_key(r.key),
    ensures
        ({
            let shard = r.order[r.asked as int];
            let has_raw = c.refs matches Some(refs) && refs.raw(shard) is Some;
            let with = read_reported(
                c,
                r,
                AnswerSpec::Found { head_size, raw: Some((raw_size, raw_len)) },
                now,
            ).0.entries[r.key];
            let without = read_reported(
                c,
                r,
                AnswerSpec::Found { head_size, raw: None },
                now,
            ).0.entries[r.key];
            let size = match head_size {
                Some(n) => n,
                None => 0,
            };
            &&& without.size == size && without.meta_len == 0
            &&& with.size == if has_raw && r.kind == ReadKind::Get {
                raw_size
            } else {
                size
            }
            &&& with.meta_len == if has_raw && (r.kind == ReadKind::Get || r.kind
                == ReadKind::Head) {
                raw_len
            } else {
                0
            }
            &&& with.shards == seq![shard] && with.crc32c is None && with.updated == now
        }),
{
}

/// Corrupt data counts against the shard that gave it, in a read of the body alone. Any
/// other error, and any error in another kind of read, leaves the cluster as it is.
pub proof fn only_corrupt_data_counts_against_a_shard(
    c: store::ClusterState,
    r: ReadState,
    message: Seq<char>,
    now: Timestamp,
)
    requires
        read_next(r) is Ask,
        r.order[r.asked as int] < c.shards.len(),
    ensures
        ({
            let shard = r.order[r.asked as int];
            let (after, next, _) = read_reported(c, r, AnswerSpec::Failed(message), now);
            let corrupt = r.kind == ReadKind::Get && text::has_substring(
                message,
                "data corruption"@,
            );
            &&& !corrupt ==> after == c && next.corrupted == r.corrupted
            &&& corrupt ==> {
                let s = c.shards[shard as int];
                let t = after.shards[shard as int];
                &&& next.corrupted == r.corrupted.push(shard)
                &&& s.crc_error_count < u64::MAX ==> t.crc_error_count == s.crc_error_count + 1
                &&& t.health == s.health && t.free_space == s.free_space && t.offline_since
                    == s.offline_since
                &&& after.entries.contains_key(r.key) ==> !after.entries[r.key].shards.contains(
                    shard,
                )
                &&& forall|i: int|
                    0 <= i < c.shards.len() && i != shard ==> #[trigger] after.shards[i]
                        == c.shards[i]
            }
        }),
{
    let shard = r.order[r.asked as int];
    if is_corruption(message) {
        a_corrupt_copy_is_no_longer_listed(c, shard, r.key, message);
    }
}

/// A read after some shards, one after the other, have failed it.
pub open spec fn failed_so_far(
    c: store::ClusterState,
    r: ReadState,
    messages: Seq<Seq<char>>,
    now: Timestamp,
) -> (store::ClusterState, ReadState)
    decreases messages.len(),
{
    if messages.len() == 0 {
        (c, r)
    } else {
        let (d, q) = failed_so_far(c, r, messages.drop_last(), now);
        let (after, next, _) = read_reported(d, q, AnswerSpec::Failed(messages.last()), now);
        (after, next)
    }
}

proof fn lemma_failed_so_far(
    c: store::ClusterState,
    r: ReadState,
    messages: Seq<Seq<char>>,
    now: Timestamp,
)
    ensures
        ({
            let q = failed_so_far(c, r, messages, now).1;
            q.order == r.order && q.asked == r.asked + messages.len() && q.key == r.key
        }),
    decreases messages.len(),
{
    if messages.len() > 0 {
        lemma_failed_so_far(c, r, messages.drop_last(), now);
    }
}

/// One shard is enough: however many shards of the order have failed, and in whatever
/// words, the read goes on to the next, and if that one has the object, returns it.
pub proof fn one_shard_that_has_the_object_is_enough(
    c: store::ClusterState,
    r: ReadState,
    messages: Seq<Seq<char>>,
    head_size: Option<u64>,
    raw: Option<(u64, u16)>,
    now: Timestamp,
)
    requires
        r.asked == 0,
        messages.len() < r.order.len(),
    ensures
        ({
            let (d, q) = failed_so_far(c, r, messages, now);
            let id = r.order[messages.len() as int];
            &&& read_next(q) == StepSpec::Ask(id)
            &&& read_reported(d, q, AnswerSpec::Found { head_size, raw }, now).2 matches StepSpec::Done {
                shard,
                ..
            } && shard == id
        }),
{
    lemma_failed_so_far(c, r, messages, now);
}

/// A repair that succeeds lists the object on the shard again and is counted as such.
/// One that fails is only counted.
pub proof fn a_repaired_copy_is_listed_again(
    c: store::ClusterState,
    key: Seq<char>,
    bad: usize,
    size: u64,
    meta_len: u16,
    now: Timestamp,
)
    ensures
        ({
            let done = repair_ended(c, key, bad, Some((size, meta_len)), now);
            let failed = repair_ended(c, key, bad, None, now);
            &&& done.entries.contains_key(key) && done.entries[key].shards.contains(bad)
                && done.dirty
            &&& forall|id: usize|
                c.entries.contains_key(key) && #[trigger] c.entries[key].shards.contains(id)
                    ==> done.entries[key].shards.contains(id)
            &&& c.repairs_done < u64::MAX ==> done.repairs_done == c.repairs_done + 1
            &&& done.repairs_failed == c.repairs_failed
            &&& failed.entries == c.entries && failed.repairs_done == c.repairs_done && failed.dirty
                == c.dirty
            &&& c.repairs_failed < u64::MAX ==> failed.repairs_failed == c.repairs_failed + 1
        }),
{
    catalog::a_replica_that_was_found_is_listed(c.entries, key, bad, size, meta_len, now);
}

} // verus!
