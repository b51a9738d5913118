//! Repairing replication: adding copies of objects that have too few, and dropping
//! copies of objects that have too many.
//!
//! A sweep is carried out step by step. The caller copies or deletes objects on shards
//! as each step says, and reports the outcome.

use vstd::prelude::*;
use vstd::string::*;
use crate::balance;
use crate::catalog;
use crate::ids;
use crate::ids::ShardId;
use crate::placement;
use crate::scan;
use crate::store;
use crate::store::{ShardHealth, ShardedObjectStore};
use crate::string_map;
use crate::tally;
use crate::tally::count_up;
use crate::text;
use crate::time::Timestamp;

verus! {

// -- What can be done -------------------------------------------------------

/// The first healthy shard of some, other than one.
pub open spec fn healthy_source(shards: Seq<store::ShardInfo>, held: Seq<usize>, but: Option<usize>) -> Option<
    usize,
>
    decreases held.len(),
{
    if held.len() == 0 {
        None
    } else if balance::is_healthy(shards, held[0]) && but != Some(held[0]) {
        Some(held[0])
    } else {
        healthy_source(shards, held.drop_first(), but)
    }
}

/// From where to where to copy an object to give it one more copy, if that can be
/// done.
pub open spec fn copy_plan(c: store::ClusterState, key: Seq<char>) -> Option<(usize, usize)> {
    if c.entries.contains_key(key) {
        match (
            healthy_source(c.shards, c.entries[key].shards, None),
            balance::replication_target(c, key),
        ) {
            (Some(from), Some(to)) => Some((from, to)),
            _ => None,
        }
    } else {
        None
    }
}

/// The first keys of some.
pub open spec fn first_keys(keys: Seq<Seq<char>>, n: nat) -> Seq<Seq<char>> {
    if keys.len() <= n {
        keys
    } else {
        keys.take(n as int)
    }
}

fn keys_of_counts(
    counts: &Vec<(String, usize)>,
    batch_size: usize,
    Ghost(keys): Ghost<Seq<Seq<char>>>,
    Ghost(count): Ghost<spec_fn(Seq<char>) -> nat>,
) -> (r: Vec<String>)
    requires
        balance::count_views(counts@) == balance::counted(keys, count),
    ensures
        text::views(r@) == first_keys(keys, batch_size as nat),
{
    assert(balance::count_views(counts@).len() == keys.len());
    let n: usize = if counts.len() <= batch_size {
        counts.len()
    } else {
        batch_size
    };
    let mut r: Vec<String> = Vec::new();
    let mut i: usize = 0;
    while i < n
        invariant
            i <= n <= counts.len(),
            counts@.len() == keys.len(),
            balance::count_views(counts@) == balance::counted(keys, count),
            text::views(r@) == keys.take(i as int),
            r.len() == i,
        decreases n - i,
    {
        let ghost before = r@;
        assert(balance::count_views(counts@)[i as int].0 == balance::counted(
            keys,
            count,
        )[i as int].0);
        r.push(counts[i].0.clone());
        assert(text::views(r@) =~= text::views(before).push(keys[i as int]));
        assert(text::views(r@) =~= keys.take(i + 1));
        i = i + 1;
    }
    assert(keys.take(keys.len() as int) =~= keys);
    r
}

impl ShardedObjectStore {
    /// The first healthy shard of some, other than one.
    pub fn healthy_source(&self, held: &[ShardId], but: Option<ShardId>) -> (r: Option<ShardId>)
        ensures
            r == healthy_source(self@.shards, held@, but),
    {
        let mut i: usize = 0;
        assert(held@.skip(0) =~= held@);
        while i < held.len()
            invariant
                i <= held.len(),
                healthy_source(self@.shards, held@.skip(i as int), but) == healthy_source(
                    self@.shards,
                    held@,
                    but,
                ),
            decreases held.len() - i,
        {
            assert(held@.skip(i as int)[0] == held@[i as int]);
            assert(held@.skip(i as int).drop_first() =~= held@.skip(i + 1));
            let healthy = match self.shard_health(held[i]) {
                Some(h) => h == ShardHealth::Healthy,
                None => false,
            };
            let other = match but {
                Some(id) => id != held[i],
                None => true,
            };
            if healthy && other {
                return Some(held[i]);
            }
            i = i + 1;
        }
        assert(held@.skip(i as int) =~= Seq::<usize>::empty());
        None
    }

    /// From where to where to copy an object to give it one more copy, if that can be
    /// done.
    pub fn plan_copy(&self, key: &str) -> (r: Option<(ShardId, ShardId)>)
        ensures
            r == copy_plan(self@, key@),
    {
        let entry = match self.placement(key) {
            Some(e) => e,
            None => {
                return None;
            },
        };
        let from = match self.healthy_source(entry.shards.as_slice(), None) {
            Some(id) => id,
            None => {
                return None;
            },
        };
        match self.find_replication_target(key) {
            Some(to) => Some((from, to)),
            None => None,
        }
    }

    /// The first objects that have too few copies.
    pub fn under_replicated_keys(&self, batch_size: usize) -> (r: Vec<String>)
        ensures
            text::views(r@) == first_keys(
                balance::under_replicated(self@),
                batch_size as nat,
            ),
    {
        let under = self.find_under_replicated();
        keys_of_counts(
            &under,
            batch_size,
            Ghost(balance::under_replicated(self@)),
            Ghost(|k: Seq<char>| balance::live_copies(self@, k)),
        )
    }

    /// The first objects that have too many copies.
    pub fn over_replicated_keys(&self, batch_size: usize) -> (r: Vec<String>)
        ensures
            text::views(r@) == first_keys(balance::over_replicated(self@), batch_size as nat),
    {
        let over = self.find_over_replicated();
        keys_of_counts(
            &over,
            batch_size,
            Ghost(balance::over_replicated(self@)),
            Ghost(|k: Seq<char>| balance::usable_copies(self@, k)),
        )
    }

    fn needs_copies(&self, key: &str) -> (r: bool)
        ensures
            r == (self@.entries.contains_key(key@) && balance::live_copies(self@, key@)
                < self@.rf),
    {
        match self.placement(key) {
            Some(e) => self.count_live(e.shards.as_slice()) < self.replication_factor(),
            None => false,
        }
    }
}

// -- Sweeps -----------------------------------------------------------------

/// What comes next in a sweep.
pub enum StepSpec {
    Copy { key: Seq<char>, from: usize, to: usize },
    Trim { key: Seq<char>, shard: usize },
    Done,
}

/// What comes next in a sweep.
#[derive(Debug)]
pub enum SweepStep {
    /// Copy the object from one shard to another.
    Copy { key: String, from: ShardId, to: ShardId },
    /// Delete the copy of the object on a shard.
    Trim { key: String, shard: ShardId },
    /// There is nothing left to do.
    Done,
}

impl View for SweepStep {
    type V = StepSpec;

    open spec fn view(&self) -> StepSpec {
        match *self {
            SweepStep::Copy { key, from, to } => StepSpec::Copy { key: key@, from, to },
            SweepStep::Trim { key, shard } => StepSpec::Trim { key: key@, shard },
            SweepStep::Done => StepSpec::Done,
        }
    }
}

/// The outcome of a step.
#[derive(Debug, Clone, Copy, PartialEq, Eq, Structural)]
pub enum SweepOutcome {
    /// The object was copied: its size, and the length of its metadata, if it has any.
    Copied { size: u64, meta_len: Option<usize> },
    /// The copy was deleted.
    Trimmed,
    Failed,
}

/// The length of metadata to record.
pub open spec fn recorded_len(meta_len: Option<usize>) -> u16 {
    match meta_len {
        Some(n) => n as u16,
        None => 0,
    }
}

/// Where a repair sweep is.
#[derive(Debug, Clone, Copy, PartialEq, Eq, Structural)]
pub enum Phase {
    Copying,
    Trimming,
    Ended,
}

/// A repair sweep in progress.
pub struct SweepState {
    pub phase: Phase,
    /// The objects that are still to be looked at in this phase.
    pub todo: Seq<Seq<char>>,
    pub batch_size: nat,
    pub re_replicated: usize,
    pub trimmed: usize,
}

/// A repair sweep when it begins.
pub open spec fn sweep_begun(c: store::ClusterState, batch_size: nat) -> SweepState {
    SweepState {
        phase: Phase::Copying,
        todo: first_keys(balance::under_replicated(c), batch_size),
        batch_size,
        re_replicated: 0,
        trimmed: 0,
    }
}

/// The copy to make next of an object, if it still needs one and one can be made.
pub open spec fn copy_due(c: store::ClusterState, key: Seq<char>) -> Option<(usize, usize)> {
    if c.entries.contains_key(key) && balance::live_copies(c, key) < c.rf {
        copy_plan(c, key)
    } else {
        None
    }
}

/// How far a phase is from the end.
pub open spec fn rank(phase: Phase) -> nat {
    match phase {
        Phase::Copying => 2,
        Phase::Trimming => 1,
        Phase::Ended => 0,
    }
}

/// The sweep when the next step is due, and the step. An object is looked at until
/// nothing can be done about it any more; first come the objects with too few copies,
/// then those with too many.
pub open spec fn sweep_next(c: store::ClusterState, s: SweepState) -> (SweepState, StepSpec)
    decreases rank(s.phase), s.todo.len(),
{
    match s.phase {
        Phase::Copying => if s.todo.len() == 0 {
            sweep_next(
                c,
                SweepState {
                    phase: Phase::Trimming,
                    todo: first_keys(balance::over_replicated(c), s.batch_size),
                    ..s
                },
            )
        } else {
            match copy_due(c, s.todo[0]) {
                Some((from, to)) => (s, StepSpec::Copy { key: s.todo[0], from, to }),
                None => sweep_next(c, SweepState { todo: s.todo.drop_first(), ..s }),
            }
        },
        Phase::Trimming => if s.todo.len() == 0 {
            (SweepState { phase: Phase::Ended, ..s }, StepSpec::Done)
        } else {
            match balance::excess_of(c, s.todo[0]) {
                Some(shard) => (s, StepSpec::Trim { key: s.todo[0], shard }),
                None => sweep_next(c, SweepState { todo: s.todo.drop_first(), ..s }),
            }
        },
        Phase::Ended => (s, StepSpec::Done),
    }
}

/// The cluster and the sweep after a step was carried out. A step that failed is not
/// tried again on the same object.
pub open spec fn sweep_reported(
    c: store::ClusterState,
    s: SweepState,
    step: StepSpec,
    outcome: SweepOutcome,
    now: Timestamp,
) -> (store::ClusterState, SweepState) {
    match (step, outcome) {
        (StepSpec::Copy { key, from, to }, SweepOutcome::Copied { size, meta_len }) => (
            scan::copied(c, key, to, size, recorded_len(meta_len), now),
            SweepState { re_replicated: tally::up(s.re_replicated), ..s },
        ),
        (StepSpec::Trim { key, shard }, SweepOutcome::Trimmed) => (
            scan::copy_removed(c, key, shard),
            SweepState { trimmed: tally::up(s.trimmed), ..s },
        ),
        _ => (
            c,
            if s.todo.len() > 0 {
                SweepState { todo: s.todo.drop_first(), ..s }
            } else {
                s
            },
        ),
    }
}

/// The outcome of a repair sweep.
#[derive(Debug, Clone, Copy, PartialEq, Eq, Structural)]
pub struct RepairReplicationResult {
    /// Copies that were made.
    pub re_replicated: usize,
    /// Copies that were dropped.
    pub trimmed: usize,
    /// Objects that still have too few copies.
    pub under_remaining: usize,
    /// Objects that still have too many copies.
    pub over_remaining: usize,
}

/// The outcome of a repair sweep.
pub open spec fn sweep_result(c: store::ClusterState, s: SweepState, r: RepairReplicationResult) -> bool {
    &&& r.re_replicated == s.re_replicated
    &&& r.trimmed == s.trimmed
    &&& r.under_remaining == balance::under_replicated(c).len()
    &&& r.over_remaining == balance::over_replicated(c).len()
}

/// A repair sweep in progress.
#[derive(Debug)]
pub struct RepairSweep {
    phase: Phase,
    keys: Vec<String>,
    pos: usize,
    batch_size: usize,
    re_replicated: usize,
    trimmed: usize,
}

impl View for RepairSweep {
    type V = SweepState;

    closed spec fn view(&self) -> SweepState {
        SweepState {
            phase: self.phase,
            todo: text::views(self.keys@).skip(self.pos as int),
            batch_size: self.batch_size as nat,
            re_replicated: self.re_replicated,
            trimmed: self.trimmed,
        }
    }
}

impl RepairSweep {
    #[verifier::type_invariant]
    spec fn inv(&self) -> bool {
        self.pos <= self.keys@.len()
    }

    /// What comes next, given the cluster as it is.
    pub fn next(&mut self, store: &ShardedObjectStore) -> (step: SweepStep)
        ensures
            (final(self)@, step@) == sweep_next(store@, old(self)@),
    {
        proof {
            use_type_invariant(&*self);
        }
        loop
            invariant
                self.pos <= self.keys@.len(),
                sweep_next(store@, self@) == sweep_next(store@, old(self)@),
            decreases rank(self.phase), self.keys@.len() - self.pos,
        {
            let ghost all = text::views(self.keys@);
            assert(self@.todo == all.skip(self.pos as int));
            if self.pos < self.keys.len() {
                assert(self@.todo[0] == self.keys@[self.pos as int]@);
                assert(self@.todo.drop_first() =~= all.skip(self.pos + 1));
            }
            match self.phase {
                Phase::Copying => {
                    if self.pos >= self.keys.len() {
                        let mut keys = store.over_replicated_keys(self.batch_size);
                        assert(text::views(keys@).skip(0) =~= text::views(keys@));
                        self.pos = 0;
                        std::mem::swap(&mut self.keys, &mut keys);
                        self.phase = Phase::Trimming;
                    } else {
                        let key = self.keys[self.pos].clone();
                        if store.needs_copies(key.as_str()) {
                            if let Some((from, to)) = store.plan_copy(key.as_str()) {
                                return SweepStep::Copy { key, from, to };
                            }
                        }
                        self.pos = self.pos + 1;
                    }
                },
                Phase::Trimming => {
                    if self.pos >= self.keys.len() {
                        self.phase = Phase::Ended;
                        return SweepStep::Done;
                    }
                    let key = self.keys[self.pos].clone();
                    if let Some(shard) = store.pick_excess_shard(key.as_str()) {
                        return SweepStep::Trim { key, shard };
                    }
                    self.pos = self.pos + 1;
                },
                Phase::Ended => {
                    return SweepStep::Done;
                },
            }
        }
    }

    /// Takes the outcome of the step that was due.
    pub fn report(
        &mut self,
        store: &mut ShardedObjectStore,
        step: &SweepStep,
        outcome: SweepOutcome,
        now: Timestamp,
    )
        ensures
            (final(store)@, final(self)@) == sweep_reported(
                old(store)@,
                old(self)@,
                step@,
                outcome,
                now,
            ),
            store::valid(old(store)@) ==> store::valid(final(store)@),
    {
        proof {
            use_type_invariant(&*self);
        }
        match (step, outcome) {
            (SweepStep::Copy { key, to, .. }, SweepOutcome::Copied { size, meta_len }) => {
                store.record_copy(key.as_str(), *to, size, meta_len, now);
                self.re_replicated = count_up(self.re_replicated);
            },
            (SweepStep::Trim { key, shard }, SweepOutcome::Trimmed) => {
                store.catalog_mut().remove_shard(key.as_str(), *shard);
                self.trimmed = count_up(self.trimmed);
            },
            _ => {
                if self.pos < self.keys.len() {
                    assert(self@.todo.drop_first() =~= text::views(self.keys@).skip(self.pos + 1));
                    self.pos = self.pos + 1;
                }
            },
        }
    }

    /// The outcome of the sweep, given the cluster as it is now.
    pub fn result(&self, store: &ShardedObjectStore) -> (r: RepairReplicationResult)
        ensures
            sweep_result(store@, self@, r),
    {
        let under = store.find_under_replicated();
        let over = store.find_over_replicated();
        assert(balance::count_views(under@).len() == balance::under_replicated(store@).len());
        assert(balance::count_views(over@).len() == balance::over_replicated(store@).len());
        RepairReplicationResult {
            re_replicated: self.re_replicated,
            trimmed: self.trimmed,
            under_remaining: under.len(),
            over_remaining: over.len(),
        }
    }
}

/// Begins a repair sweep, of at most as many objects with too few copies as a batch
/// holds, and at most as many with too many.
pub fn repair_replication_sweep(store: &ShardedObjectStore, batch_size: usize) -> (s: RepairSweep)
    ensures
        s@ == sweep_begun(store@, batch_size as nat),
{
    let keys = store.under_replicated_keys(batch_size);
    assert(text::views(keys@).skip(0) =~= text::views(keys@));
    RepairSweep {
        phase: Phase::Copying,
        keys,
        pos: 0,
        batch_size,
        re_replicated: 0,
        trimmed: 0,
    }
}

// -- Sweeps of one kind -----------------------------------------------------

/// A sweep in progress that tries each object once, either to copy or to trim it.
pub struct BatchState {
    pub trimming: bool,
    pub todo: Seq<Seq<char>>,
    /// How many steps succeeded.
    pub done: usize,
}

/// What can be done about an object.
pub open spec fn batch_step(c: store::ClusterState, trimming: bool, key: Seq<char>) -> StepSpec {
    if trimming {
        match balance::excess_of(c, key) {
            Some(shard) => StepSpec::Trim { key, shard },
            None => StepSpec::Done,
        }
    } else {
        match copy_plan(c, key) {
            Some((from, to)) => StepSpec::Copy { key, from, to },
            None => StepSpec::Done,
        }
    }
}

/// The sweep when the next step is due, and the step. Objects that nothing can be done
/// about are passed over.
pub open spec fn batch_next(c: store::ClusterState, s: BatchState) -> (BatchState, StepSpec)
    decreases s.todo.len(),
{
    if s.todo.len() == 0 {
        (s, StepSpec::Done)
    } else {
        let step = batch_step(c, s.trimming, s.todo[0]);
        if step is Done {
            batch_next(c, BatchState { todo: s.todo.drop_first(), ..s })
        } else {
            (s, step)
        }
    }
}

/// The cluster and the sweep after a step was carried out.
pub open spec fn batch_reported(
    c: store::ClusterState,
    s: BatchState,
    step: StepSpec,
    outcome: SweepOutcome,
    now: Timestamp,
) -> (store::ClusterState, BatchState) {
    let rest = if s.todo.len() > 0 {
        s.todo.drop_first()
    } else {
        s.todo
    };
    match (step, outcome) {
        (StepSpec::Copy { key, from, to }, SweepOutcome::Copied { size, meta_len }) => (
            scan::copied(c, key, to, size, recorded_len(meta_len), now),
            BatchState { todo: rest, done: tally::up(s.done), ..s },
        ),
        (StepSpec::Trim { key, shard }, SweepOutcome::Trimmed) => (
            scan::copy_removed(c, key, shard),
            BatchState { todo: rest, done: tally::up(s.done), ..s },
        ),
        _ => (c, BatchState { todo: rest, ..s }),
    }
}

/// Whether a shard is a reason to make copies elsewhere: it is away or degraded, and is
/// not held offline by an administrator who means to bring it back.
pub open spec fn calls_for_copies(s: store::ShardInfo) -> bool {
    !s.suppress_replication && (s.health.away() || s.health == ShardHealth::Degraded)
}

/// Whether some shard is a reason to make copies elsewhere.
pub open spec fn copies_called_for(shards: Seq<store::ShardInfo>) -> bool {
    exists|i: int| 0 <= i < shards.len() && calls_for_copies(#[trigger] shards[i])
}

/// A sweep that makes copies, when it begins.
pub open spec fn re_replication_begun(c: store::ClusterState, batch_size: nat) -> BatchState {
    BatchState {
        trimming: false,
        todo: if copies_called_for(c.shards) {
            first_keys(balance::under_replicated(c), batch_size)
        } else {
            Seq::empty()
        },
        done: 0,
    }
}

/// A sweep that drops copies, when it begins.
pub open spec fn trim_begun(c: store::ClusterState, batch_size: nat) -> BatchState {
    BatchState {
        trimming: true,
        todo: first_keys(balance::over_replicated(c), batch_size),
        done: 0,
    }
}

/// A sweep in progress that tries each object once.
#[derive(Debug)]
pub struct BatchSweep {
    trimming: bool,
    keys: Vec<String>,
    pos: usize,
    done: usize,
}

impl View for BatchSweep {
    type V = BatchState;

    closed spec fn view(&self) -> BatchState {
        BatchState {
            trimming: self.trimming,
            todo: text::views(self.keys@).skip(self.pos as int),
            done: self.done,
        }
    }
}

impl BatchSweep {
    #[verifier::type_invariant]
    spec fn inv(&self) -> bool {
        self.pos <= self.keys@.len()
    }

    fn over(keys: Vec<String>, trimming: bool) -> (s: BatchSweep)
        ensures
            s@ == (BatchState { trimming, todo: text::views(keys@), done: 0 }),
    {
        assert(text::views(keys@).skip(0) =~= text::views(keys@));
        BatchSweep { trimming, keys, pos: 0, done: 0 }
    }

    /// What comes next, given the cluster as it is.
    pub fn next(&mut self, store: &ShardedObjectStore) -> (step: SweepStep)
        ensures
            (final(self)@, step@) == batch_next(store@, old(self)@),
    {
        proof {
            use_type_invariant(&*self);
        }
        while self.pos < self.keys.len()
            invariant
                self.pos <= self.keys@.len(),
                batch_next(store@, self@) == batch_next(store@, old(self)@),
            decreases self.keys@.len() - self.pos,
        {
            let ghost all = text::views(self.keys@);
            assert(self@.todo == all.skip(self.pos as int));
            assert(self@.todo[0] == self.keys@[self.pos as int]@);
            assert(self@.todo.drop_first() =~= all.skip(self.pos + 1));
            let key = self.keys[self.pos].clone();
            if self.trimming {
                if let Some(shard) = store.pick_excess_shard(key.as_str()) {
                    return SweepStep::Trim { key, shard };
                }
            } else {
                if let Some((from, to)) = store.plan_copy(key.as_str()) {
                    return SweepStep::Copy { key, from, to };
                }
            }
            self.pos = self.pos + 1;
        }
        SweepStep::Done
    }

    /// Takes the outcome of the step that was due.
    pub fn report(
        &mut self,
        store: &mut ShardedObjectStore,
        step: &SweepStep,
        outcome: SweepOutcome,
        now: Timestamp,
    )
        ensures
            (final(store)@, final(self)@) == batch_reported(
                old(store)@,
                old(self)@,
                step@,
                outcome,
                now,
            ),
            store::valid(old(store)@) ==> store::valid(final(store)@),
    {
        proof {
            use_type_invariant(&*self);
        }
        if self.pos < self.keys.len() {
            assert(self@.todo.drop_first() =~= text::views(self.keys@).skip(self.pos + 1));
            self.pos = self.pos + 1;
        }
        match (step, outcome) {
            (SweepStep::Copy { key, to, .. }, SweepOutcome::Copied { size, meta_len }) => {
                store.record_copy(key.as_str(), *to, size, meta_len, now);
                self.done = count_up(self.done);
            },
            (SweepStep::Trim { key, shard }, SweepOutcome::Trimmed) => {
                store.catalog_mut().remove_shard(key.as_str(), *shard);
                self.done = count_up(self.done);
            },
            _ => {},
        }
    }

    /// How many steps succeeded.
    pub fn done(&self) -> (n: usize)
        ensures
            n == self@.done,
    {
        self.done
    }
}

/// Begins a sweep that copies objects with too few copies to other healthy shards, if
/// some shard is a reason to.
pub fn re_replication_sweep(store: &ShardedObjectStore, batch_size: usize) -> (s: BatchSweep)
    ensures
        s@ == re_replication_begun(store@, batch_size as nat),
{
    let shards = store.shards();
    let mut called = false;
    let mut i: usize = 0;
    while i < shards.len()
        invariant
            i <= shards.len(),
            shards@ == store@.shards,
            called <==> exists|k: int| 0 <= k < i && calls_for_copies(#[trigger] shards@[k]),
        decreases shards.len() - i,
    {
        let s = &shards[i];
        let ghost before = called;
        if !s.suppress_replication && (s.health.is_away() || s.health
            == ShardHealth::Degraded) {
            called = true;
        }
        proof {
            if before {
                let k = choose|k: int| 0 <= k < i && calls_for_copies(#[trigger] shards@[k]);
                assert(calls_for_copies(shards@[k]));
            }
            assert(calls_for_copies(shards@[i as int]) ==> called);
        }
        i = i + 1;
    }
    if called {
        BatchSweep::over(store.under_replicated_keys(batch_size), false)
    } else {
        let none: Vec<String> = Vec::new();
        assert(text::views(none@) =~= Seq::<Seq<char>>::empty());
        BatchSweep::over(none, false)
    }
}

/// Begins a sweep that drops a copy of each object with too many, from its fullest
/// shard.
pub fn over_replication_trim(store: &ShardedObjectStore, batch_size: usize) -> (s: BatchSweep)
    ensures
        s@ == trim_begun(store@, batch_size as nat),
{
    BatchSweep::over(store.over_replicated_keys(batch_size), true)
}

// -- Courses of a sweep -----------------------------------------------------

/// A step of a sweep, with what came of it.
pub struct SweepEvent {
    pub step: StepSpec,
    pub outcome: SweepOutcome,
    pub now: Timestamp,
}

/// Whether an outcome says that a step succeeded.
pub open spec fn succeeded(step: StepSpec, outcome: SweepOutcome) -> bool {
    match (step, outcome) {
        (StepSpec::Copy { .. }, SweepOutcome::Copied { .. }) => true,
        (StepSpec::Trim { .. }, SweepOutcome::Trimmed) => true,
        _ => false,
    }
}

/// The cluster and the sweep after some steps, if these are the steps that were due and
/// each of them succeeded.
pub open spec fn carried_out(c: store::ClusterState, s: SweepState, run: Seq<SweepEvent>) -> Option<
    (store::ClusterState, SweepState),
>
    decreases run.len(),
{
    if run.len() == 0 {
        Some((c, s))
    } else {
        match carried_out(c, s, run.drop_last()) {
            Some((c1, s1)) => {
                let (due, step) = sweep_next(c1, s1);
                let e = run.last();
                if e.step == step && succeeded(step, e.outcome) {
                    Some(sweep_reported(c1, due, step, e.outcome, e.now))
                } else {
                    None
                }
            },
            None => None,
        }
    }
}

/// Whether a sweep has nothing left to do.
pub open spec fn is_over(c: store::ClusterState, s: SweepState) -> bool {
    sweep_next(c, s).1 is Done
}

/// A step that succeeds.
pub open spec fn supposed(step: StepSpec) -> SweepEvent {
    SweepEvent {
        step,
        outcome: match step {
            StepSpec::Copy { .. } => SweepOutcome::Copied { size: 0, meta_len: None },
            _ => SweepOutcome::Trimmed,
        },
        now: Timestamp { secs: 0, nanos: 0 },
    }
}

/// Steps that succeed.
pub open spec fn foreseen(steps: Seq<StepSpec>) -> Seq<SweepEvent> {
    Seq::new(steps.len(), |i: int| supposed(steps[i]))
}

/// The cluster after some steps of a sweep that succeed.
pub open spec fn reached(c: store::ClusterState, s: SweepState, steps: Seq<StepSpec>) -> store::ClusterState {
    match carried_out(c, s, foreseen(steps)) {
        Some((c1, s1)) => c1,
        None => c,
    }
}

/// Whether some steps are those that a sweep takes from here to its end if each of them
/// succeeds.
pub open spec fn is_course(c: store::ClusterState, s: SweepState, steps: Seq<StepSpec>) -> bool {
    carried_out(c, s, foreseen(steps)) matches Some((c1, s1)) && is_over(c1, s1)
}

/// Whether two clusters have the same shards, should keep as many copies, and hold the
/// same objects.
pub open spec fn same_objects(c: store::ClusterState, d: store::ClusterState) -> bool {
    &&& c.shards == d.shards
    &&& c.rf == d.rf
    &&& c.entries.dom() == d.entries.dom()
}

/// Whether a step is what comes next in a sweep.
pub open spec fn is_due(c: store::ClusterState, s: SweepState, step: StepSpec) -> bool {
    match step {
        StepSpec::Copy { key, from, to } => {
            &&& s.phase == Phase::Copying
            &&& s.todo.len() > 0
            &&& s.todo[0] == key
            &&& copy_due(c, key) == Some((from, to))
        },
        StepSpec::Trim { key, shard } => {
            &&& s.phase == Phase::Trimming
            &&& s.todo.len() > 0
            &&& s.todo[0] == key
            &&& balance::excess_of(c, key) == Some(shard)
        },
        StepSpec::Done => s.phase == Phase::Ended,
    }
}

/// How much there is left to do at most about the object that a sweep is at.
spec fn gap(c: store::ClusterState, s: SweepState) -> nat {
    match s.phase {
        Phase::Copying => {
            let live = balance::live_copies(c, s.todo[0]);
            if live < c.rf {
                (c.rf - live) as nat
            } else {
                0
            }
        },
        Phase::Trimming => c.entries[s.todo[0]].shards.len(),
        Phase::Ended => 0,
    }
}

proof fn lemma_next(c: store::ClusterState, s: SweepState)
    ensures
        is_due(c, sweep_next(c, s).0, sweep_next(c, s).1),
        sweep_next(c, s).0.batch_size == s.batch_size,
        sweep_next(c, s).0.re_replicated == s.re_replicated,
        sweep_next(c, s).0.trimmed == s.trimmed,
        rank(sweep_next(c, s).0.phase) < rank(s.phase) || (sweep_next(c, s).0.phase == s.phase && (
        sweep_next(c, s).0 == s || sweep_next(c, s).0.todo.len() < s.todo.len())),
    decreases rank(s.phase), s.todo.len(),
{
    match s.phase {
        Phase::Copying => if s.todo.len() == 0 {
            lemma_next(
                c,
                SweepState {
                    phase: Phase::Trimming,
                    todo: first_keys(balance::over_replicated(c), s.batch_size),
                    ..s
                },
            );
        } else if copy_due(c, s.todo[0]) is None {
            lemma_next(c, SweepState { todo: s.todo.drop_first(), ..s });
        },
        Phase::Trimming => if s.todo.len() > 0 && balance::excess_of(c, s.todo[0]) is None {
            lemma_next(c, SweepState { todo: s.todo.drop_first(), ..s });
        },
        Phase::Ended => {},
    }
}

/// A step that succeeds changes the shards that hold its object, and nothing that a
/// sweep rests on besides, and leaves less to do about the object.
proof fn lemma_success(
    c: store::ClusterState,
    s: SweepState,
    step: StepSpec,
    outcome: SweepOutcome,
    now: Timestamp,
)
    requires
        c.rf >= 1,
        is_due(c, s, step),
        succeeded(step, outcome),
    ensures
        ({
            let (d, t) = sweep_reported(c, s, step, outcome, now);
            &&& same_objects(c, d)
            &&& t.phase == s.phase
            &&& t.todo == s.todo
            &&& t.batch_size == s.batch_size
            &&& c.entries.contains_key(s.todo[0])
            &&& forall|k: Seq<char>| k != s.todo[0] ==> #[trigger] d.entries[k] == c.entries[k]
            &&& gap(d, t) < gap(c, s)
            &&& step is Trim ==> balance::live_copies(d, s.todo[0]) >= c.rf
        }),
{
    let (d, t) = sweep_reported(c, s, step, outcome, now);
    match (step, outcome) {
        (StepSpec::Copy { key, from, to }, SweepOutcome::Copied { size, meta_len }) => {
            a_copy_goes_where_it_is_missing(c, key, size, recorded_len(meta_len), now);
            assert(d.entries.dom() =~= c.entries.dom());
        },
        (StepSpec::Trim { key, shard }, SweepOutcome::Trimmed) => {
            assert(balance::excess_shard(c, key, shard));
            balance::dropping_an_excess_copy_keeps_enough(c, key, shard);
            let held = c.entries[key].shards;
            let all = |id: usize| true;
            balance::lemma_copies_without(held, shard, all);
            lemma_all_copies(held);
            lemma_all_copies(ids::without(held, shard));
            assert(d.entries.dom() =~= c.entries.dom());
            balance::lemma_copies_narrower(
                d.entries[key].shards,
                |id: usize| balance::is_healthy(c.shards, id),
                |id: usize| balance::is_live(d.shards, id),
            );
        },
        _ => {},
    }
}

proof fn lemma_all_copies(held: Seq<usize>)
    ensures
        balance::copies(held, |id: usize| true) == held.len(),
    decreases held.len(),
{
    reveal(Seq::filter);
    if held.len() > 0 {
        lemma_all_copies(held.drop_last());
    }
}

/// Carrying out one step more.
proof fn lemma_one_more(
    c: store::ClusterState,
    s: SweepState,
    steps: Seq<StepSpec>,
    c1: store::ClusterState,
    s1: SweepState,
)
    requires
        carried_out(c, s, foreseen(steps)) == Some((c1, s1)),
        !is_over(c1, s1),
    ensures
        ({
            let (due, step) = sweep_next(c1, s1);
            carried_out(c, s, foreseen(steps.push(step))) == Some(
                sweep_reported(c1, due, step, supposed(step).outcome, supposed(step).now),
            )
        }),
{
    let step = sweep_next(c1, s1).1;
    let run = foreseen(steps.push(step));
    assert(run.drop_last() =~= foreseen(steps));
    assert(run.last() == supposed(step));
}

// -- Plans ------------------------------------------------------------------

/// What is planned for an object.
#[derive(Debug, Clone, Copy, PartialEq, Eq, Structural)]
pub enum PlannedActionKind {
    /// Copy it from one shard to another.
    Replicate { source_shard: ShardId, target_shard: ShardId },
    /// Drop its copy on a shard.
    Trim { shard: ShardId },
}

/// What is planned for an object.
#[derive(Debug)]
pub struct PlannedAction {
    pub key: String,
    /// How many copies count now.
    pub current_count: usize,
    /// How many copies should be kept.
    pub target_rf: usize,
    pub action: PlannedActionKind,
}

/// What is planned for an object.
pub struct ActionSpec {
    pub key: Seq<char>,
    pub current_count: nat,
    pub target_rf: nat,
    pub action: PlannedActionKind,
}

impl View for PlannedAction {
    type V = ActionSpec;

    open spec fn view(&self) -> ActionSpec {
        ActionSpec {
            key: self.key@,
            current_count: self.current_count as nat,
            target_rf: self.target_rf as nat,
            action: self.action,
        }
    }
}

/// What is planned for objects.
pub open spec fn action_views(v: Seq<PlannedAction>) -> Seq<ActionSpec> {
    Seq::new(v.len(), |i: int| v[i]@)
}

/// A step that a planned action stands for.
pub open spec fn step_of(a: ActionSpec) -> StepSpec {
    match a.action {
        PlannedActionKind::Replicate { source_shard, target_shard } => StepSpec::Copy {
            key: a.key,
            from: source_shard,
            to: target_shard,
        },
        PlannedActionKind::Trim { shard } => StepSpec::Trim { key: a.key, shard },
    }
}

/// The steps that planned actions stand for.
pub open spec fn steps_of(actions: Seq<ActionSpec>) -> Seq<StepSpec> {
    Seq::new(actions.len(), |i: int| step_of(actions[i]))
}

/// What a repair sweep would do.
#[derive(Debug)]
pub struct RepairReplicationPlan {
    /// The copies it would make, in their order.
    pub replications: Vec<PlannedAction>,
    /// The copies it would then drop, in their order.
    pub trims: Vec<PlannedAction>,
    /// Objects it would look at that would still have too few copies.
    pub unrepairable: usize,
    /// Objects it would look at that would still have too many copies.
    pub untrimmable: usize,
}

/// What a repair sweep would do.
pub struct PlanSpec {
    pub replications: Seq<ActionSpec>,
    pub trims: Seq<ActionSpec>,
    pub unrepairable: nat,
    pub untrimmable: nat,
}

impl View for RepairReplicationPlan {
    type V = PlanSpec;

    open spec fn view(&self) -> PlanSpec {
        PlanSpec {
            replications: action_views(self.replications@),
            trims: action_views(self.trims@),
            unrepairable: self.unrepairable as nat,
            untrimmable: self.untrimmable as nat,
        }
    }
}

/// Whether an object has fewer copies than should be kept.
pub open spec fn has_too_few(c: store::ClusterState, key: Seq<char>) -> bool {
    c.entries.contains_key(key) && balance::live_copies(c, key) < c.rf
}

/// Whether an object has more copies than should be kept.
pub open spec fn has_too_many(c: store::ClusterState, key: Seq<char>) -> bool {
    c.entries.contains_key(key) && balance::usable_copies(c, key) > c.rf
}

/// Whether a planned copy gives the number of copies that there are and that should be
/// kept.
pub open spec fn is_replication(c: store::ClusterState, a: ActionSpec) -> bool {
    &&& a.action is Replicate
    &&& c.entries.contains_key(a.key)
    &&& a.current_count == balance::live_copies(c, a.key)
    &&& a.target_rf == c.rf
}

/// Whether a planned trim gives the number of copies that there are and that should be
/// kept.
pub open spec fn is_trim(c: store::ClusterState, a: ActionSpec) -> bool {
    &&& a.action is Trim
    &&& c.entries.contains_key(a.key)
    &&& a.current_count == balance::usable_copies(c, a.key)
    &&& a.target_rf == c.rf
}

/// What a repair sweep would do: the steps it would take if each of them succeeded,
/// and the objects it would look at in each phase that would be left as they should
/// not be.
pub open spec fn is_plan(c: store::ClusterState, batch_size: nat, p: PlanSpec) -> bool {
    let begun = sweep_begun(c, batch_size);
    let copies = steps_of(p.replications);
    let steps = copies + steps_of(p.trims);
    let copied = reached(c, begun, copies);
    let end = reached(c, begun, steps);
    &&& is_course(c, begun, steps)
    &&& forall|i: int|
        0 <= i < p.replications.len() ==> is_replication(c, #[trigger] p.replications[i])
    &&& forall|i: int| 0 <= i < p.trims.len() ==> is_trim(c, #[trigger] p.trims[i])
    &&& p.unrepairable == first_keys(balance::under_replicated(c), batch_size).filter(
        |k: Seq<char>| has_too_few(end, k),
    ).len()
    &&& p.untrimmable == first_keys(balance::over_replicated(copied), batch_size).filter(
        |k: Seq<char>| has_too_many(end, k),
    ).len()
}

impl ShardedObjectStore {
    fn count_too_few(&self, keys: &Vec<String>) -> (n: usize)
        ensures
            n == text::views(keys@).filter(|k: Seq<char>| has_too_few(self@, k)).len(),
    {
        let ghost all = text::views(keys@);
        let ghost pred = |k: Seq<char>| has_too_few(self@, k);
        let mut n: usize = 0;
        let mut i: usize = 0;
        proof {
            placement::lemma_filter_none(all, pred);
        }
        while i < keys.len()
            invariant
                n <= i <= keys.len(),
                all == text::views(keys@),
                pred == (|k: Seq<char>| has_too_few(self@, k)),
                n == all.take(i as int).filter(pred).len(),
            decreases keys.len() - i,
        {
            proof {
                placement::lemma_filter_step(all, i as int, pred);
            }
            if self.needs_copies(keys[i].as_str()) {
                n = n + 1;
            }
            i = i + 1;
        }
        assert(all.take(i as int) =~= all);
        n
    }

    fn count_too_many(&self, keys: &Vec<String>) -> (n: usize)
        ensures
            n == text::views(keys@).filter(|k: Seq<char>| has_too_many(self@, k)).len(),
    {
        let ghost all = text::views(keys@);
        let ghost pred = |k: Seq<char>| has_too_many(self@, k);
        let rf: usize = self.replication_factor();
        let mut n: usize = 0;
        let mut i: usize = 0;
        proof {
            placement::lemma_filter_none(all, pred);
        }
        while i < keys.len()
            invariant
                n <= i <= keys.len(),
                rf == self@.rf,
                all == text::views(keys@),
                pred == (|k: Seq<char>| has_too_many(self@, k)),
                n == all.take(i as int).filter(pred).len(),
            decreases keys.len() - i,
        {
            proof {
                placement::lemma_filter_step(all, i as int, pred);
            }
            let many = match self.placement(keys[i].as_str()) {
                Some(e) => self.count_usable(e.shards.as_slice()) > rf,
                None => false,
            };
            if many {
                n = n + 1;
            }
            i = i + 1;
        }
        assert(all.take(i as int) =~= all);
        n
    }
}

/// What a repair sweep would do, without doing it: every copy that it would make and
/// every copy that it would then drop, if each step succeeded.
pub fn plan_repair_replication(store: &ShardedObjectStore, batch_size: usize) -> (p:
    RepairReplicationPlan)
    ensures
        is_plan(store@, batch_size as nat, p@),
{
    let ghost c = store@;
    let ghost begun = sweep_begun(c, batch_size as nat);
    let rf: usize = store.replication_factor();
    let under = store.under_replicated_keys(batch_size);
    let mut over: Vec<String> = Vec::new();
    let mut copying = true;
    let mut replications: Vec<PlannedAction> = Vec::new();
    let mut trims: Vec<PlannedAction> = Vec::new();
    let mut trial = store.copy();
    let mut sweep = repair_replication_sweep(&trial, batch_size);
    let now = Timestamp { secs: 0, nanos: 0 };
    proof {
        assert(foreseen(steps_of(action_views(replications@)) + steps_of(action_views(trims@)))
            =~= Seq::empty());
    }
    loop
        invariant
            c == store@,
            begun == sweep_begun(c, batch_size as nat),
            rf == c.rf,
            rf >= 1,
            now == (Timestamp { secs: 0, nanos: 0 }),
            text::views(under@) == first_keys(balance::under_replicated(c), batch_size as nat),
            same_objects(c, trial@),
            carried_out(
                c,
                begun,
                foreseen(
                    steps_of(action_views(replications@)) + steps_of(action_views(trims@)),
                ),
            ) == Some((trial@, sweep@)),
            copying ==> trims@.len() == 0,
            !copying ==> sweep@.phase != Phase::Copying && text::views(over@) == first_keys(
                balance::over_replicated(reached(c, begun, steps_of(action_views(replications@)))),
                batch_size as nat,
            ),
            forall|i: int|
                0 <= i < replications@.len() ==> is_replication(
                    c,
                    #[trigger] action_views(replications@)[i],
                ),
            forall|i: int|
                0 <= i < trims@.len() ==> is_trim(c, #[trigger] action_views(trims@)[i]),
        decreases rank(sweep@.phase), sweep@.todo.len(), gap(trial@, sweep@),
    {
        let ghost cluster = trial@;
        let ghost copies = steps_of(action_views(replications@));
        let ghost trimmed = steps_of(action_views(trims@));
        let ghost before = sweep@;
        let step = sweep.next(&trial);
        let ghost due = sweep@;
        proof {
            lemma_next(cluster, before);
            if copying {
                assert(copies + trimmed =~= copies);
            }
        }
        if copying && !matches!(step, SweepStep::Copy { .. }) {
            over = trial.over_replicated_keys(batch_size);
            copying = false;
        }
        match &step {
            SweepStep::Copy { key, from, to } => {
                let current_count: usize = match store.placement(key.as_str()) {
                    Some(e) => store.count_live(e.shards.as_slice()),
                    None => 0,
                };
                let ghost made = replications@;
                let one = PlannedAction {
                    key: key.clone(),
                    current_count,
                    target_rf: rf,
                    action: PlannedActionKind::Replicate { source_shard: *from, target_shard: *to },
                };
                replications.push(one);
                sweep.report(
                    &mut trial,
                    &step,
                    SweepOutcome::Copied { size: 0, meta_len: None },
                    now,
                );
                proof {
                    lemma_success(cluster, due, step@, supposed(step@).outcome, now);
                    lemma_one_more(c, begun, copies, cluster, before);
                    assert(action_views(replications@) =~= action_views(made).push(one@));
                    assert(steps_of(action_views(replications@)) =~= copies.push(step@));
                    assert(steps_of(action_views(replications@)) + trimmed =~= copies.push(step@));
                }
            },
            SweepStep::Trim { key, shard } => {
                let current_count: usize = match store.placement(key.as_str()) {
                    Some(e) => store.count_usable(e.shards.as_slice()),
                    None => 0,
                };
                let ghost made = trims@;
                let one = PlannedAction {
                    key: key.clone(),
                    current_count,
                    target_rf: rf,
                    action: PlannedActionKind::Trim { shard: *shard },
                };
                trims.push(one);
                sweep.report(&mut trial, &step, SweepOutcome::Trimmed, now);
                proof {
                    balance::only_an_object_with_too_many_copies_has_an_excess_copy(cluster, key@);
                    lemma_success(cluster, due, step@, supposed(step@).outcome, now);
                    lemma_one_more(c, begun, copies + trimmed, cluster, before);
                    assert(action_views(trims@) =~= action_views(made).push(one@));
                    assert(steps_of(action_views(trims@)) =~= trimmed.push(step@));
                    assert(copies + steps_of(action_views(trims@)) =~= (copies + trimmed).push(
                        step@,
                    ));
                }
            },
            SweepStep::Done => {
                return RepairReplicationPlan {
                    unrepairable: trial.count_too_few(&under),
                    untrimmable: trial.count_too_many(&over),
                    replications,
                    trims,
                };
            },
        }
    }
}

// -- Laws -------------------------------------------------------------------

pub proof fn lemma_healthy_source(shards: Seq<store::ShardInfo>, held: Seq<usize>, but: Option<usize>)
    ensures
        healthy_source(shards, held, but) matches Some(id) ==> held.contains(id)
            && balance::is_healthy(shards, id) && but != Some(id),
    decreases held.len(),
{
    if held.len() > 0 {
        lemma_healthy_source(shards, held.drop_first(), but);
        if let Some(id) = healthy_source(shards, held, but) {
            if held[0] != id || !balance::is_healthy(shards, held[0]) || but == Some(held[0]) {
                let i = held.drop_first().index_of(id);
                assert(held[i + 1] == id);
            } else {
                assert(held.contains(held[0]));
            }
        }
    }
}

/// A copy is made from a healthy shard that holds the object to a healthy shard that
/// does not, and gives the object one more copy that is there.
pub proof fn a_copy_goes_where_it_is_missing(
    c: store::ClusterState,
    key: Seq<char>,
    size: u64,
    meta_len: u16,
    now: Timestamp,
)
    ensures
        copy_plan(c, key) matches Some((from, to)) ==> {
            &&& c.entries[key].shards.contains(from)
            &&& balance::is_healthy(c.shards, from)
            &&& !c.entries[key].shards.contains(to)
            &&& balance::is_healthy(c.shards, to)
            &&& balance::live_copies(scan::copied(c, key, to, size, meta_len, now), key)
                == balance::live_copies(c, key) + 1
        },
{
    if let Some((from, to)) = copy_plan(c, key) {
        lemma_healthy_source(c.shards, c.entries[key].shards, None);
        assert(balance::best_target(c, key, to));
        balance::adding_a_copy_on_the_target_gives_one_more(c, key, to, size, meta_len, now);
        let a = scan::copied(c, key, to, size, meta_len, now);
        let b = store::ClusterState {
            entries: catalog::replica_added(c.entries, key, to, size, meta_len, now),
            ..c
        };
        assert(a.entries == b.entries && a.shards == b.shards);
        assert((|id: usize| balance::is_live(a.shards, id)) =~= (|id: usize|
            balance::is_live(b.shards, id)));
    }
}

/// A sweep copies an object only while it has too few copies.
pub proof fn a_sweep_copies_only_what_has_too_few_copies(c: store::ClusterState, s: SweepState)
    ensures
        sweep_next(c, s).1 matches StepSpec::Copy { key, from, to } ==> c.entries.contains_key(key)
            && balance::live_copies(c, key) < c.rf && copy_plan(c, key) == Some((from, to)),
    decreases rank(s.phase), s.todo.len(),
{
    match s.phase {
        Phase::Copying => if s.todo.len() == 0 {
            a_sweep_copies_only_what_has_too_few_copies(
                c,
                SweepState {
                    phase: Phase::Trimming,
                    todo: first_keys(balance::over_replicated(c), s.batch_size),
                    ..s
                },
            );
        } else if copy_due(c, s.todo[0]) is None {
            a_sweep_copies_only_what_has_too_few_copies(
                c,
                SweepState { todo: s.todo.drop_first(), ..s },
            );
        },
        Phase::Trimming => if s.todo.len() > 0 && balance::excess_of(c, s.todo[0]) is None {
            a_sweep_copies_only_what_has_too_few_copies(
                c,
                SweepState { todo: s.todo.drop_first(), ..s },
            );
        },
        Phase::Ended => {},
    }
}

/// A sweep drops a copy only if enough copies on healthy shards stay.
pub proof fn a_sweep_never_trims_below_the_factor(c: store::ClusterState, s: SweepState)
    requires
        c.rf >= 1,
    ensures
        sweep_next(c, s).1 matches StepSpec::Trim { key, shard } ==> ({
            let after = scan::copy_removed(c, key, shard);
            &&& after.entries.contains_key(key)
            &&& balance::copies(
                after.entries[key].shards,
                |id: usize| balance::is_healthy(c.shards, id),
            ) >= c.rf
        }),
    decreases rank(s.phase), s.todo.len(),
{
    match s.phase {
        Phase::Copying => if s.todo.len() == 0 {
            a_sweep_never_trims_below_the_factor(
                c,
                SweepState {
                    phase: Phase::Trimming,
                    todo: first_keys(balance::over_replicated(c), s.batch_size),
                    ..s
                },
            );
        } else if copy_due(c, s.todo[0]) is None {
            a_sweep_never_trims_below_the_factor(c, SweepState { todo: s.todo.drop_first(), ..s });
        },
        Phase::Trimming => if s.todo.len() > 0 {
            match balance::excess_of(c, s.todo[0]) {
                None => a_sweep_never_trims_below_the_factor(
                    c,
                    SweepState { todo: s.todo.drop_first(), ..s },
                ),
                Some(shard) => {
                    assert(balance::excess_shard(c, s.todo[0], shard));
                    balance::dropping_an_excess_copy_keeps_enough(c, s.todo[0], shard);
                },
            }
        },
        Phase::Ended => {},
    }
}

/// Whether two clusters have the same shards, should keep as many copies, and hold the
/// same objects on the same shards.
pub open spec fn same_copies(c: store::ClusterState, d: store::ClusterState) -> bool {
    &&& same_objects(c, d)
    &&& forall|k: Seq<char>| #[trigger]
        c.entries.contains_key(k) ==> c.entries[k].shards == d.entries[k].shards
}

proof fn lemma_filter_same(
    keys: Seq<Seq<char>>,
    p: spec_fn(Seq<char>) -> bool,
    q: spec_fn(Seq<char>) -> bool,
)
    requires
        forall|i: int| 0 <= i < keys.len() ==> p(#[trigger] keys[i]) == q(keys[i]),
    ensures
        keys.filter(p) == keys.filter(q),
    decreases keys.len(),
{
    reveal(Seq::filter);
    if keys.len() > 0 {
        let head = keys.drop_last();
        assert forall|i: int| 0 <= i < head.len() implies p(#[trigger] head[i]) == q(head[i]) by {
            assert(head[i] == keys[i]);
        }
        lemma_filter_same(head, p, q);
        assert(keys[keys.len() - 1] == keys.last());
    }
}

/// The keys of the catalog are those of its entries.
proof fn lemma_keys(c: store::ClusterState)
    requires
        c.entries.dom().finite(),
    ensures
        forall|k: Seq<char>| #[trigger]
            balance::keys_of(c).contains(k) == c.entries.contains_key(k),
        balance::keys_of(c).len() == c.entries.dom().len(),
{
    string_map::lemma_sorted_exists(c.entries.dom());
    let keys = balance::keys_of(c);
    assert forall|k: Seq<char>| #[trigger] keys.contains(k) == c.entries.contains_key(k) by {
        assert(keys.to_set().contains(k) == keys.contains(k));
    }
    string_map::lemma_ascending_distinct(keys);
    keys.unique_seq_to_set();
}

/// What comes next in a sweep rests on the shards, on the number of copies to keep and
/// on where the objects are, and on nothing else that the catalog says of them.
pub proof fn a_sweep_goes_by_where_objects_are(
    c: store::ClusterState,
    d: store::ClusterState,
    s: SweepState,
)
    requires
        c.entries.dom().finite(),
        same_copies(c, d),
    ensures
        sweep_next(c, s) == sweep_next(d, s),
    decreases rank(s.phase), s.todo.len(),
{
    match s.phase {
        Phase::Copying => if s.todo.len() == 0 {
            lemma_keys(c);
            let keys = balance::keys_of(c);
            let p = |k: Seq<char>| balance::usable_copies(c, k) > c.rf;
            let q = |k: Seq<char>| balance::usable_copies(d, k) > d.rf;
            assert forall|i: int| 0 <= i < keys.len() implies p(#[trigger] keys[i]) == q(
                keys[i],
            ) by {
                assert(keys.contains(keys[i]));
                balance::lemma_same_holders(c, d, keys[i]);
            }
            lemma_filter_same(keys, p, q);
            assert(balance::over_replicated(c) == balance::over_replicated(d));
            a_sweep_goes_by_where_objects_are(
                c,
                d,
                SweepState {
                    phase: Phase::Trimming,
                    todo: first_keys(balance::over_replicated(c), s.batch_size),
                    ..s
                },
            );
        } else {
            balance::lemma_same_holders(c, d, s.todo[0]);
            if copy_due(c, s.todo[0]) is None {
                a_sweep_goes_by_where_objects_are(
                    c,
                    d,
                    SweepState { todo: s.todo.drop_first(), ..s },
                );
            }
        },
        Phase::Trimming => if s.todo.len() > 0 {
            balance::lemma_same_holders(c, d, s.todo[0]);
            if balance::excess_of(c, s.todo[0]) is None {
                a_sweep_goes_by_where_objects_are(
                    c,
                    d,
                    SweepState { todo: s.todo.drop_first(), ..s },
                );
            }
        },
        Phase::Ended => {},
    }
}

/// Two runs of a sweep in which every step succeeds take the same steps, as far as both
/// go, whatever sizes and times are reported.
proof fn lemma_same_run(
    c: store::ClusterState,
    s: SweepState,
    a: Seq<SweepEvent>,
    b: Seq<SweepEvent>,
)
    requires
        c.entries.dom().finite(),
        c.rf >= 1,
        a.len() == b.len(),
        carried_out(c, s, a) is Some,
        carried_out(c, s, b) is Some,
    ensures
        forall|i: int| 0 <= i < a.len() ==> (#[trigger] a[i]).step == b[i].step,
        ({
            let (c1, s1) = carried_out(c, s, a)->0;
            let (c2, s2) = carried_out(c, s, b)->0;
            same_objects(c, c1) && same_copies(c1, c2) && s1 == s2
        }),
    decreases a.len(),
{
    if a.len() > 0 {
        let x = a.drop_last();
        let y = b.drop_last();
        lemma_same_run(c, s, x, y);
        let (c1, s1) = carried_out(c, s, x)->0;
        let (c2, s2) = carried_out(c, s, y)->0;
        a_sweep_goes_by_where_objects_are(c1, c2, s1);
        let (due, step) = sweep_next(c1, s1);
        lemma_next(c1, s1);
        lemma_next(c2, s2);
        lemma_success(c1, due, step, a.last().outcome, a.last().now);
        lemma_success(c2, due, step, b.last().outcome, b.last().now);
        assert forall|i: int| 0 <= i < a.len() implies (#[trigger] a[i]).step == b[i].step by {
            if i < x.len() {
                assert(x[i].step == y[i].step);
            }
        }
        let d1 = sweep_reported(c1, due, step, a.last().outcome, a.last().now).0;
        let d2 = sweep_reported(c2, due, step, b.last().outcome, b.last().now).0;
        assert forall|k: Seq<char>| #[trigger] d1.entries.contains_key(k) implies d1.entries[k].shards
            == d2.entries[k].shards by {
            assert(c1.entries.contains_key(k));
            if k != due.todo[0] {
                assert(d1.entries[k] == c1.entries[k]);
                assert(d2.entries[k] == c2.entries[k]);
            }
        }
    }
}

proof fn lemma_prefix_carried_out(
    c: store::ClusterState,
    s: SweepState,
    run: Seq<SweepEvent>,
    n: int,
)
    requires
        0 <= n <= run.len(),
        carried_out(c, s, run) is Some,
    ensures
        carried_out(c, s, run.take(n)) is Some,
        n < run.len() ==> ({
            let (c1, s1) = carried_out(c, s, run.take(n))->0;
            !is_over(c1, s1)
        }),
    decreases run.len(),
{
    if n == run.len() {
        assert(run.take(n) =~= run);
    } else {
        let head = run.drop_last();
        lemma_prefix_carried_out(c, s, head, n);
        assert(head.take(n) =~= run.take(n));
    }
}

/// A sweep in which every step succeeds takes the steps that were planned, one for one
/// and in their order, whatever sizes and times are reported.
pub proof fn a_sweep_in_which_nothing_fails_goes_as_planned(
    c: store::ClusterState,
    batch_size: nat,
    p: PlanSpec,
    run: Seq<SweepEvent>,
)
    requires
        c.entries.dom().finite(),
        c.rf >= 1,
        is_plan(c, batch_size, p),
        carried_out(c, sweep_begun(c, batch_size), run) matches Some((c1, s1)) && is_over(c1, s1),
    ensures
        Seq::new(run.len(), |i: int| run[i].step) == steps_of(p.replications) + steps_of(p.trims),
{
    let s = sweep_begun(c, batch_size);
    let steps = steps_of(p.replications) + steps_of(p.trims);
    let other = foreseen(steps);
    let n: int = if run.len() <= other.len() {
        run.len() as int
    } else {
        other.len() as int
    };
    lemma_prefix_carried_out(c, s, run, n);
    lemma_prefix_carried_out(c, s, other, n);
    assert(run.take(run.len() as int) =~= run);
    assert(other.take(other.len() as int) =~= other);
    let a = run.take(n);
    let b = other.take(n);
    lemma_same_run(c, s, a, b);
    let (c1, s1) = carried_out(c, s, a)->0;
    let (c2, s2) = carried_out(c, s, b)->0;
    a_sweep_goes_by_where_objects_are(c1, c2, s1);
    assert(run.len() == other.len());
    assert forall|i: int| 0 <= i < run.len() implies (#[trigger] run[i]).step == steps[i] by {
        assert(a[i].step == b[i].step);
    }
    assert(Seq::new(run.len(), |i: int| run[i].step) =~= steps);
}

/// Whether nothing can be done about an object.
spec fn settled(c: store::ClusterState, key: Seq<char>) -> bool {
    copy_due(c, key) is None && balance::excess_of(c, key) is None
}

/// What holds all along a sweep that looks at every object: it is done with copies of
/// the objects that it is past, and with all copies once it trims.
spec fn on_its_way(c: store::ClusterState, s: SweepState) -> bool {
    &&& forall|k: Seq<char>| #[trigger]
        copy_due(c, k) is Some ==> s.phase == Phase::Copying && s.todo.contains(k)
    &&& s.phase != Phase::Copying ==> forall|k: Seq<char>| #[trigger]
        balance::excess_of(c, k) is Some ==> s.phase == Phase::Trimming && s.todo.contains(k)
}

proof fn lemma_drop_first_contains(keys: Seq<Seq<char>>, k: Seq<char>)
    requires
        keys.contains(k),
        keys[0] != k,
    ensures
        keys.drop_first().contains(k),
{
    let i = keys.index_of(k);
    assert(keys.drop_first()[i - 1] == k);
}

proof fn lemma_all_listed(c: store::ClusterState, n: nat)
    requires
        c.entries.dom().finite(),
        c.entries.dom().len() <= n,
    ensures
        forall|k: Seq<char>| #[trigger]
            copy_due(c, k) is Some ==> first_keys(balance::under_replicated(c), n).contains(k),
        forall|k: Seq<char>| #[trigger]
            balance::excess_of(c, k) is Some ==> first_keys(
                balance::over_replicated(c),
                n,
            ).contains(k),
{
    lemma_keys(c);
    let keys = balance::keys_of(c);
    let few = |k: Seq<char>| balance::live_copies(c, k) < c.rf;
    let many = |k: Seq<char>| balance::usable_copies(c, k) > c.rf;
    keys.lemma_filter_len(few);
    keys.lemma_filter_len(many);
    assert forall|k: Seq<char>| #[trigger] copy_due(c, k) is Some implies first_keys(
        balance::under_replicated(c),
        n,
    ).contains(k) by {
        assert(keys.contains(k));
        let i = keys.index_of(k);
        keys.lemma_filter_contains(few, i);
    }
    assert forall|k: Seq<char>| #[trigger]
        balance::excess_of(c, k) is Some implies first_keys(
        balance::over_replicated(c),
        n,
    ).contains(k) by {
        balance::only_an_object_with_too_many_copies_has_an_excess_copy(c, k);
        assert(keys.contains(k));
        let i = keys.index_of(k);
        keys.lemma_filter_contains(many, i);
    }
}

proof fn lemma_next_on_its_way(c: store::ClusterState, s: SweepState)
    requires
        c.entries.dom().finite(),
        c.entries.dom().len() <= s.batch_size,
        on_its_way(c, s),
    ensures
        on_its_way(c, sweep_next(c, s).0),
    decreases rank(s.phase), s.todo.len(),
{
    match s.phase {
        Phase::Copying => if s.todo.len() == 0 {
            lemma_all_listed(c, s.batch_size);
            lemma_next_on_its_way(
                c,
                SweepState {
                    phase: Phase::Trimming,
                    todo: first_keys(balance::over_replicated(c), s.batch_size),
                    ..s
                },
            );
        } else if copy_due(c, s.todo[0]) is None {
            assert forall|k: Seq<char>| #[trigger]
                copy_due(c, k) is Some implies s.todo.drop_first().contains(k) by {
                lemma_drop_first_contains(s.todo, k);
            }
            lemma_next_on_its_way(c, SweepState { todo: s.todo.drop_first(), ..s });
        },
        Phase::Trimming => if s.todo.len() > 0 && balance::excess_of(c, s.todo[0]) is None {
            assert forall|k: Seq<char>| #[trigger]
                balance::excess_of(c, k) is Some implies s.todo.drop_first().contains(k) by {
                lemma_drop_first_contains(s.todo, k);
            }
            lemma_next_on_its_way(c, SweepState { todo: s.todo.drop_first(), ..s });
        },
        Phase::Ended => {},
    }
}

proof fn lemma_success_on_its_way(
    c: store::ClusterState,
    s: SweepState,
    step: StepSpec,
    outcome: SweepOutcome,
    now: Timestamp,
)
    requires
        c.rf >= 1,
        is_due(c, s, step),
        succeeded(step, outcome),
        on_its_way(c, s),
    ensures
        ({
            let (d, t) = sweep_reported(c, s, step, outcome, now);
            on_its_way(d, t)
        }),
{
    lemma_success(c, s, step, outcome, now);
    let (d, t) = sweep_reported(c, s, step, outcome, now);
    let key = s.todo[0];
    assert forall|k: Seq<char>| #[trigger] copy_due(d, k) is Some implies t.phase == Phase::Copying
        && t.todo.contains(k) by {
        if k != key {
            assert(d.entries[k] == c.entries[k]);
            assert(d.entries.contains_key(k) == c.entries.contains_key(k));
            balance::lemma_same_holders(c, d, k);
            assert(copy_due(c, k) is Some);
        }
    }
    if t.phase != Phase::Copying {
        assert forall|k: Seq<char>| #[trigger]
            balance::excess_of(d, k) is Some implies t.phase == Phase::Trimming && t.todo.contains(
            k,
        ) by {
            if k != key {
                assert(d.entries[k] == c.entries[k]);
                assert(d.entries.contains_key(k) == c.entries.contains_key(k));
                balance::lemma_same_holders(c, d, k);
                assert(balance::excess_of(c, k) is Some);
            }
        }
    }
}

proof fn lemma_run_on_its_way(c: store::ClusterState, s: SweepState, run: Seq<SweepEvent>)
    requires
        c.entries.dom().finite(),
        c.entries.dom().len() <= s.batch_size,
        c.rf >= 1,
        on_its_way(c, s),
        carried_out(c, s, run) is Some,
    ensures
        ({
            let (c1, s1) = carried_out(c, s, run)->0;
            same_objects(c, c1) && s1.batch_size == s.batch_size && on_its_way(c1, s1)
        }),
    decreases run.len(),
{
    if run.len() > 0 {
        let head = run.drop_last();
        lemma_run_on_its_way(c, s, head);
        let (c1, s1) = carried_out(c, s, head)->0;
        let (due, step) = sweep_next(c1, s1);
        lemma_next(c1, s1);
        lemma_next_on_its_way(c1, s1);
        lemma_success(c1, due, step, run.last().outcome, run.last().now);
        lemma_success_on_its_way(c1, due, step, run.last().outcome, run.last().now);
    }
}

proof fn lemma_nothing_to_do(c: store::ClusterState, s: SweepState)
    requires
        forall|k: Seq<char>| #[trigger] settled(c, k),
    ensures
        sweep_next(c, s).1 is Done,
    decreases rank(s.phase), s.todo.len(),
{
    if s.todo.len() > 0 {
        assert(settled(c, s.todo[0]));
    }
    match s.phase {
        Phase::Copying => if s.todo.len() == 0 {
            lemma_nothing_to_do(
                c,
                SweepState {
                    phase: Phase::Trimming,
                    todo: first_keys(balance::over_replicated(c), s.batch_size),
                    ..s
                },
            );
        } else {
            lemma_nothing_to_do(c, SweepState { todo: s.todo.drop_first(), ..s });
        },
        Phase::Trimming => if s.todo.len() > 0 {
            lemma_nothing_to_do(c, SweepState { todo: s.todo.drop_first(), ..s });
        },
        Phase::Ended => {},
    }
}

/// A second sweep has nothing to do after one that looked at every object and in which
/// nothing failed: it is over at once, copies nothing and drops nothing, and reports as
/// many objects with too few and with too many copies as the first, whatever its batch.
pub proof fn a_second_sweep_does_nothing(
    c: store::ClusterState,
    batch_size: nat,
    run: Seq<SweepEvent>,
    first: RepairReplicationResult,
    again: nat,
    second: RepairReplicationResult,
)
    requires
        c.entries.dom().finite(),
        c.entries.dom().len() <= batch_size,
        c.rf >= 1,
        carried_out(c, sweep_begun(c, batch_size), run) matches Some((c1, s1)) && is_over(c1, s1)
            && sweep_result(c1, sweep_next(c1, s1).0, first) && sweep_result(
            c1,
            sweep_next(c1, sweep_begun(c1, again)).0,
            second,
        ),
    ensures
        carried_out(c, sweep_begun(c, batch_size), run) matches Some((c1, s1)) && is_over(
            c1,
            sweep_begun(c1, again),
        ),
        second.re_replicated == 0,
        second.trimmed == 0,
        second.under_remaining == first.under_remaining,
        second.over_remaining == first.over_remaining,
{
    let s = sweep_begun(c, batch_size);
    lemma_all_listed(c, batch_size);
    lemma_run_on_its_way(c, s, run);
    let (c1, s1) = carried_out(c, s, run)->0;
    lemma_next(c1, s1);
    lemma_next_on_its_way(c1, s1);
    assert(sweep_next(c1, s1).0.phase == Phase::Ended);
    assert forall|k: Seq<char>| #[trigger] settled(c1, k) by {
        assert(copy_due(c1, k) is None);
        assert(balance::excess_of(c1, k) is None);
    }
    lemma_nothing_to_do(c1, sweep_begun(c1, again));
    lemma_next(c1, sweep_begun(c1, again));
}

/// An object can be copied exactly if a healthy shard holds it and another healthy shard
/// does not. It is copied from such a shard to such a shard, and to one of those with the
/// most free space.
pub proof fn an_object_can_be_copied_if_a_healthy_shard_lacks_it(
    c: store::ClusterState,
    key: Seq<char>,
)
    requires
        c.shards.len() <= usize::MAX,
        c.entries.contains_key(key),
    ensures
        ({
            let held = c.entries[key].shards;
            let healthy = |id: usize|
                id < c.shards.len() && c.shards[id as int].health == ShardHealth::Healthy;
            &&& copy_plan(c, key) is Some <==> (exists|id: usize| #[trigger]
                healthy(id) && held.contains(id)) && (exists|id: usize| #[trigger]
                healthy(id) && !held.contains(id))
            &&& copy_plan(c, key) matches Some((from, to)) ==> healthy(from) && held.contains(from)
                && healthy(to) && !held.contains(to) && forall|other: usize| #[trigger]
                healthy(other) && !held.contains(other) ==> c.shards[other as int].free_space
                    <= c.shards[to as int].free_space
        }),
{
    let held = c.entries[key].shards;
    let healthy = |id: usize|
        id < c.shards.len() && c.shards[id as int].health == ShardHealth::Healthy;
    lemma_healthy_source(c.shards, held, None);
    lemma_no_source(c.shards, held);
    balance::a_copy_is_added_where_most_space_is_free(c, key);
    let fits = |id: usize|
        id < c.shards.len() && c.shards[id as int].health == ShardHealth::Healthy && !(
        c.entries.contains_key(key) && c.entries[key].shards.contains(id));
    assert forall|id: usize| healthy(id) && !held.contains(id) <==> #[trigger] fits(id) by {}
    if let Some(from) = healthy_source(c.shards, held, None) {
        assert(healthy(from) && held.contains(from));
    }
    if let Some(to) = balance::replication_target(c, key) {
        assert(balance::best_target(c, key, to));
        assert(healthy(to) && !held.contains(to));
        assert forall|other: usize| #[trigger] healthy(other) && !held.contains(
            other,
        ) implies c.shards[other as int].free_space <= c.shards[to as int].free_space by {
            assert(balance::can_receive(c, key, other));
        }
    } else {
        assert forall|id: usize| #[trigger] healthy(id) implies held.contains(id) by {
            assert(!fits(id));
        }
    }
}

proof fn lemma_no_source(shards: Seq<store::ShardInfo>, held: Seq<usize>)
    ensures
        healthy_source(shards, held, None) is None ==> forall|id: usize| #[trigger]
            held.contains(id) ==> !balance::is_healthy(shards, id),
    decreases held.len(),
{
    if held.len() > 0 && healthy_source(shards, held, None) is None {
        lemma_no_source(shards, held.drop_first());
        assert forall|id: usize| #[trigger] held.contains(id) implies !balance::is_healthy(
            shards,
            id,
        ) by {
            let i = held.index_of(id);
            if i > 0 {
                assert(held.drop_first()[i - 1] == id);
                assert(held.drop_first().contains(id));
            }
        }
    }
}

/// A sweep looks at the objects that have too few copies when it begins, as many as the
/// batch holds, in their order.
pub proof fn a_sweep_looks_at_what_has_too_few_copies(c: store::ClusterState, batch_size: nat)
    ensures
        ({
            let s = sweep_begun(c, batch_size);
            let under = balance::under_replicated(c);
            &&& s.phase == Phase::Copying
            &&& s.todo.len() == if under.len() <= batch_size {
                under.len()
            } else {
                batch_size
            }
            &&& forall|i: int| 0 <= i < s.todo.len() ==> #[trigger] s.todo[i] == under[i]
            &&& s.batch_size == batch_size
            &&& s.re_replicated == 0 && s.trimmed == 0
        }),
{
}

/// A sweep passes over no object that it can copy: as long as one of those that it still
/// looks at has too few copies and can be copied, the next step is a copy of the first
/// such object.
pub proof fn a_sweep_passes_over_nothing_that_it_can_copy(
    c: store::ClusterState,
    s: SweepState,
    i: int,
)
    requires
        s.phase == Phase::Copying,
        0 <= i < s.todo.len(),
        c.entries.contains_key(s.todo[i]),
        balance::live_copies(c, s.todo[i]) < c.rf,
        copy_plan(c, s.todo[i]) is Some,
    ensures
        sweep_next(c, s).1 matches StepSpec::Copy { key, from, to } && exists|j: int|
            0 <= j <= i && #[trigger] s.todo[j] == key,
    decreases s.todo.len(),
{
    if copy_due(c, s.todo[0]) is None {
        let rest = SweepState { todo: s.todo.drop_first(), ..s };
        assert(rest.todo[i - 1] == s.todo[i]);
        a_sweep_passes_over_nothing_that_it_can_copy(c, rest, i - 1);
        if let StepSpec::Copy { key, from, to } = sweep_next(c, rest).1 {
            let j = choose|j: int| 0 <= j <= i - 1 && #[trigger] rest.todo[j] == key;
            assert(s.todo[j + 1] == key);
        }
    } else {
        assert(s.todo[0] == s.todo[0]);
    }
}

proof fn lemma_trims(c: store::ClusterState, s: SweepState, i: int)
    requires
        s.phase == Phase::Trimming,
        0 <= i < s.todo.len(),
        balance::excess_of(c, s.todo[i]) is Some,
    ensures
        sweep_next(c, s).1 matches StepSpec::Trim { key, shard } && exists|j: int|
            0 <= j <= i && #[trigger] s.todo[j] == key,
    decreases s.todo.len(),
{
    if balance::excess_of(c, s.todo[0]) is None {
        let rest = SweepState { todo: s.todo.drop_first(), ..s };
        assert(rest.todo[i - 1] == s.todo[i]);
        lemma_trims(c, rest, i - 1);
        if let StepSpec::Trim { key, shard } = sweep_next(c, rest).1 {
            let j = choose|j: int| 0 <= j <= i - 1 && #[trigger] rest.todo[j] == key;
            assert(s.todo[j + 1] == key);
        }
    } else {
        assert(s.todo[0] == s.todo[0]);
    }
}

/// A sweep passes over no copy that it can drop: as long as one of the objects that it
/// still looks at has a copy that can be dropped, the next step drops one. When nothing
/// is left to copy, it looks at the objects that have too many copies, as many as the
/// batch holds.
pub proof fn a_sweep_passes_over_nothing_that_it_can_trim(
    c: store::ClusterState,
    s: SweepState,
    i: int,
)
    requires
        match s.phase {
            Phase::Copying => {
                &&& forall|k: int|
                    0 <= k < s.todo.len() ==> copy_due(c, #[trigger] s.todo[k]) is None
                &&& 0 <= i < balance::over_replicated(c).len()
                &&& i < s.batch_size
                &&& balance::excess_of(c, balance::over_replicated(c)[i]) is Some
            },
            Phase::Trimming => 0 <= i < s.todo.len() && balance::excess_of(c, s.todo[i]) is Some,
            Phase::Ended => false,
        },
    ensures
        sweep_next(c, s).1 is Trim,
    decreases s.todo.len(),
{
    if s.phase == Phase::Trimming {
        lemma_trims(c, s, i);
    } else if s.todo.len() == 0 {
        let next = SweepState {
            phase: Phase::Trimming,
            todo: first_keys(balance::over_replicated(c), s.batch_size),
            ..s
        };
        assert(next.todo[i] == balance::over_replicated(c)[i]);
        lemma_trims(c, next, i);
    } else {
        let rest = SweepState { todo: s.todo.drop_first(), ..s };
        assert(copy_due(c, s.todo[0]) is None);
        assert forall|k: int| 0 <= k < rest.todo.len() implies copy_due(
            c,
            #[trigger] rest.todo[k],
        ) is None by {
            assert(rest.todo[k] == s.todo[k + 1]);
        }
        a_sweep_passes_over_nothing_that_it_can_trim(c, rest, i);
    }
}

/// A copy that was made is listed and counted, and so is one that was dropped; the sweep
/// stays at its object. After a failure nothing is listed or counted, and the sweep
/// leaves the object.
pub proof fn a_sweep_records_what_was_done(
    c: store::ClusterState,
    s: SweepState,
    key: Seq<char>,
    from: usize,
    to: usize,
    size: u64,
    meta_len: Option<usize>,
    now: Timestamp,
)
    requires
        s.todo.len() > 0,
        c.entries.contains_key(key),
        s.re_replicated < usize::MAX,
        s.trimmed < usize::MAX,
    ensures
        ({
            let copy = StepSpec::Copy { key, from, to };
            let trim = StepSpec::Trim { key, shard: from };
            let (made, m) = sweep_reported(
                c,
                s,
                copy,
                SweepOutcome::Copied { size, meta_len },
                now,
            );
            let (dropped, d) = sweep_reported(c, s, trim, SweepOutcome::Trimmed, now);
            &&& made.entries.contains_key(key) && made.entries[key].shards.contains(to)
            &&& forall|id: usize| #[trigger]
                c.entries[key].shards.contains(id) ==> made.entries[key].shards.contains(id)
            &&& m == (SweepState { re_replicated: (s.re_replicated + 1) as usize, ..s })
            &&& dropped.entries.contains_key(key) ==> !dropped.entries[key].shards.contains(from)
            &&& forall|id: usize|
                id != from && #[trigger] c.entries[key].shards.contains(id)
                    ==> dropped.entries[key].shards.contains(id)
            &&& d == (SweepState { trimmed: (s.trimmed + 1) as usize, ..s })
            &&& sweep_reported(c, s, copy, SweepOutcome::Failed, now) == (
                c,
                SweepState { todo: s.todo.drop_first(), ..s },
            )
            &&& sweep_reported(c, s, trim, SweepOutcome::Failed, now) == (
                c,
                SweepState { todo: s.todo.drop_first(), ..s },
            )
        }),
{
    catalog::a_replica_that_was_found_is_listed(
        c.entries,
        key,
        to,
        size,
        recorded_len(meta_len),
        now,
    );
    catalog::a_shard_that_is_taken_out_is_gone_alone(c.entries, key, from);
}

/// Copies are called for exactly if a shard that is offline, detached or degraded is not
/// held back. Then a sweep that makes copies looks at the objects that have too few, as
/// many as the batch holds, and otherwise at none. One that drops copies looks at those
/// that have too many.
pub proof fn a_batch_looks_at_what_is_amiss(c: store::ClusterState, batch_size: nat)
    ensures
        ({
            let called = exists|i: int|
                0 <= i < c.shards.len() && !(#[trigger] c.shards[i]).suppress_replication && (
                c.shards[i].health == ShardHealth::Offline || c.shards[i].health
                    == ShardHealth::Detached || c.shards[i].health == ShardHealth::Degraded);
            let s = re_replication_begun(c, batch_size);
            let t = trim_begun(c, batch_size);
            let under = balance::under_replicated(c);
            let over = balance::over_replicated(c);
            &&& !called ==> s.todo.len() == 0
            &&& called ==> s.todo.len() == if under.len() <= batch_size {
                under.len()
            } else {
                batch_size
            }
            &&& forall|i: int| 0 <= i < s.todo.len() ==> #[trigger] s.todo[i] == under[i]
            &&& t.todo.len() == if over.len() <= batch_size {
                over.len()
            } else {
                batch_size
            }
            &&& forall|i: int| 0 <= i < t.todo.len() ==> #[trigger] t.todo[i] == over[i]
            &&& !s.trimming && t.trimming && s.done == 0 && t.done == 0
        }),
{
    if copies_called_for(c.shards) {
        let i = choose|i: int| 0 <= i < c.shards.len() && calls_for_copies(#[trigger] c.shards[i]);
        assert(!c.shards[i].suppress_replication);
    }
    if exists|i: int|
        0 <= i < c.shards.len() && !(#[trigger] c.shards[i]).suppress_replication && (
        c.shards[i].health == ShardHealth::Offline || c.shards[i].health == ShardHealth::Detached
            || c.shards[i].health == ShardHealth::Degraded) {
        let i = choose|i: int|
            0 <= i < c.shards.len() && !(#[trigger] c.shards[i]).suppress_replication && (
            c.shards[i].health == ShardHealth::Offline || c.shards[i].health
                == ShardHealth::Detached || c.shards[i].health == ShardHealth::Degraded);
        assert(calls_for_copies(c.shards[i]));
    }
}

/// A batch does what can be done about its objects, each once, in their order: the next
/// step is about the first of those left about which anything can be done, and after it
/// those before and that one are left no more.
pub proof fn a_batch_passes_over_nothing_that_it_can_do(
    c: store::ClusterState,
    s: BatchState,
    i: int,
    outcome: SweepOutcome,
    now: Timestamp,
)
    requires
        0 <= i < s.todo.len(),
        s.trimming ==> balance::excess_of(c, s.todo[i]) is Some,
        !s.trimming ==> copy_plan(c, s.todo[i]) is Some,
        forall|k: int|
            0 <= k < i ==> if s.trimming {
                balance::excess_of(c, #[trigger] s.todo[k]) is None
            } else {
                copy_plan(c, s.todo[k]) is None
            },
    ensures
        ({
            let (next, step) = batch_next(c, s);
            let left = batch_reported(c, next, step, outcome, now).1;
            &&& s.trimming ==> step == StepSpec::Trim {
                key: s.todo[i],
                shard: balance::excess_of(c, s.todo[i])->0,
            }
            &&& !s.trimming ==> (step matches StepSpec::Copy { key, from, to } && key == s.todo[i]
                && copy_plan(c, key) == Some((from, to)))
            &&& left.todo == s.todo.skip(i + 1)
            &&& left.done == if succeeded(step, outcome) {
                tally::up(s.done)
            } else {
                s.done
            }
        }),
    decreases s.todo.len(),
{
    if i == 0 {
        assert(s.todo.drop_first() =~= s.todo.skip(1));
    } else {
        let rest = BatchState { todo: s.todo.drop_first(), ..s };
        assert(rest.todo[i - 1] == s.todo[i]);
        assert(s.todo[0] == s.todo[0]);
        assert(batch_step(c, s.trimming, s.todo[0]) is Done);
        assert forall|k: int| 0 <= k < i - 1 implies if s.trimming {
            balance::excess_of(c, #[trigger] rest.todo[k]) is None
        } else {
            copy_plan(c, rest.todo[k]) is None
        } by {
            assert(rest.todo[k] == s.todo[k + 1]);
        }
        a_batch_passes_over_nothing_that_it_can_do(c, rest, i - 1, outcome, now);
        assert(rest.todo.skip(i) =~= s.todo.skip(i + 1));
    }
}

/// What a batch has done is listed as that of a sweep is.
pub proof fn a_batch_records_what_a_sweep_would(
    c: store::ClusterState,
    s: BatchState,
    t: SweepState,
    step: StepSpec,
    outcome: SweepOutcome,
    now: Timestamp,
)
    ensures
        batch_reported(c, s, step, outcome, now).0 == sweep_reported(c, t, step, outcome, now).0,
{
}

/// The shard to copy from is the first of those that hold the object that is healthy and
/// is not the one to leave out. There is none only if no such shard holds it.
pub proof fn the_source_is_the_first_healthy_shard(
    shards: Seq<store::ShardInfo>,
    held: Seq<usize>,
    but: Option<usize>,
)
    ensures
        ({
            let fits = |id: usize|
                id < shards.len() && shards[id as int].health == ShardHealth::Healthy && but
                    != Some(id);
            match healthy_source(shards, held, but) {
                Some(id) => fits(id) && exists|i: int|
                    0 <= i < held.len() && (#[trigger] held[i]) == id && forall|j: int|
                        0 <= j < i ==> !fits(#[trigger] held[j]),
                None => forall|i: int| 0 <= i < held.len() ==> !fits(#[trigger] held[i]),
            }
        }),
    decreases held.len(),
{
    let fits = |id: usize|
        id < shards.len() && shards[id as int].health == ShardHealth::Healthy && but != Some(id);
    if held.len() > 0 {
        if fits(held[0]) {
            assert(held[0] == held[0]);
        } else {
            let rest = held.drop_first();
            the_source_is_the_first_healthy_shard(shards, rest, but);
            match healthy_source(shards, rest, but) {
                Some(id) => {
                    let i = choose|i: int|
                        0 <= i < rest.len() && (#[trigger] rest[i]) == id && forall|j: int|
                            0 <= j < i ==> !fits(#[trigger] rest[j]);
                    assert(held[i + 1] == id);
                    assert forall|j: int| 0 <= j < i + 1 implies !fits(#[trigger] held[j]) by {
                        if j > 0 {
                            assert(rest[j - 1] == held[j]);
                        }
                    }
                },
                None => {
                    assert forall|i: int| 0 <= i < held.len() implies !fits(#[trigger] held[i]) by {
                        if i > 0 {
                            assert(rest[i - 1] == held[i]);
                        }
                    }
                },
            }
        }
    }
}

/// Looking for the next step counts nothing.
pub proof fn lemma_counts_kept(c: store::ClusterState, s: SweepState)
    ensures
        sweep_next(c, s).0.re_replicated == s.re_replicated,
        sweep_next(c, s).0.trimmed == s.trimmed,
{
    lemma_next(c, s);
}

/// The objects that a plan counts as having too few or too many copies are those that are
/// found to have them.
pub proof fn what_is_amiss_is_what_is_found(c: store::ClusterState, key: Seq<char>)
    requires
        c.entries.dom().finite(),
    ensures
        has_too_few(c, key) <==> balance::under_replicated(c).contains(key),
        has_too_many(c, key) <==> balance::over_replicated(c).contains(key),
{
    balance::lemma_found(c);
}

/// The length of metadata is recorded as it is, and none as zero.
pub proof fn the_length_of_metadata_is_recorded(n: u16)
    ensures
        recorded_len(Some(n as usize)) == n,
        recorded_len(None) == 0,
{
}

} // verus!
