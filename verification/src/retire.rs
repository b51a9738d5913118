//! Retiring a shard of a running cluster: copying off it what no other healthy shard
//! has, detaching it, and repairing replication without it.

use vstd::prelude::*;
use vstd::string::*;
use crate::balance;
use crate::catalog;
use crate::catalog::PlacementEntry;
use crate::ids::ShardId;
use crate::repair;
use crate::repair::{
    repair_replication_sweep, RepairReplicationResult, RepairSweep, SweepOutcome, SweepStep,
};
use crate::scan;
use crate::store;
use crate::store::ShardedObjectStore;
use crate::tally;
use crate::tally::count_up;
use crate::time::Timestamp;

verus! {

/// Where a retirement is.
#[derive(Debug, Clone, Copy, PartialEq, Eq, Structural)]
pub enum Phase {
    /// Objects are copied off the shard.
    Copying,
    /// The shard is detached, and replication is repaired.
    Sweeping,
    /// The catalog is to be rebuilt.
    Rebuilding,
    Ended,
}

/// A retirement in progress.
pub struct RetireState {
    pub shard: usize,
    pub batch_size: nat,
    pub phase: Phase,
    /// The entries, as they were when it began, that are still to be looked at.
    pub todo: Seq<(Seq<char>, catalog::Placement)>,
    /// Objects that were copied off the shard.
    pub moved: usize,
    pub sweep: Option<repair::SweepState>,
    pub result: RepairReplicationResult,
}

/// The outcome of a retirement that has done nothing.
pub open spec fn no_result() -> RepairReplicationResult {
    RepairReplicationResult { re_replicated: 0, trimmed: 0, under_remaining: 0, over_remaining: 0 }
}

/// A retirement when it begins; none if there is no such shard.
pub open spec fn retire_begun(c: store::ClusterState, shard: usize, batch_size: nat) -> Option<
    RetireState,
> {
    if shard < c.shards.len() {
        Some(
            RetireState {
                shard,
                batch_size,
                phase: Phase::Copying,
                todo: catalog::pairs(c.entries, catalog::keys_on_shard(c.entries, shard)),
                moved: 0,
                sweep: None,
                result: no_result(),
            },
        )
    } else {
        None
    }
}

/// What comes next in a retirement.
pub enum StepSpec {
    Copy { key: Seq<char>, from: usize, to: usize },
    Sweep(repair::StepSpec),
    Rebuild,
    Done,
}

/// What comes next in a retirement.
#[derive(Debug)]
pub enum RetireStep {
    /// Copy the object from the shard to another.
    Copy { key: String, from: ShardId, to: ShardId },
    /// Carry out a step of the sweep.
    Sweep(SweepStep),
    /// Rebuild the catalog from listings of the shards.
    Rebuild,
    /// There is nothing left to do.
    Done,
}

impl View for RetireStep {
    type V = StepSpec;

    open spec fn view(&self) -> StepSpec {
        match *self {
            RetireStep::Copy { key, from, to } => StepSpec::Copy { key: key@, from, to },
            RetireStep::Sweep(s) => StepSpec::Sweep(s@),
            RetireStep::Rebuild => StepSpec::Rebuild,
            RetireStep::Done => StepSpec::Done,
        }
    }
}

/// How far a phase is from the end.
pub open spec fn rank(phase: Phase) -> nat {
    match phase {
        Phase::Copying => 3,
        Phase::Sweeping => 2,
        Phase::Rebuilding => 1,
        Phase::Ended => 0,
    }
}

/// Where to copy an object that is on the shard: nowhere if another healthy shard has
/// it, or if no healthy shard can take it.
pub open spec fn refuge(c: store::ClusterState, shard: usize, key: Seq<char>, held: Seq<usize>) -> Option<
    usize,
> {
    if repair::healthy_source(c.shards, held, Some(shard)) is Some {
        None
    } else {
        balance::replication_target(c, key)
    }
}

/// The cluster without the shard.
pub open spec fn without(c: store::ClusterState, shard: usize, now: Timestamp) -> store::ClusterState {
    if shard < c.shards.len() {
        store::with_shard(c, shard, store::detached(c.shards[shard as int], now))
    } else {
        c
    }
}

/// Two counts together, as far as they fit.
pub open spec fn both(a: usize, b: usize) -> usize {
    if a + b <= usize::MAX {
        (a + b) as usize
    } else {
        usize::MAX
    }
}

/// The outcome of a retirement whose sweep has ended.
pub open spec fn swept(c: store::ClusterState, moved: usize, sweep: repair::SweepState) -> RepairReplicationResult {
    RepairReplicationResult {
        re_replicated: both(moved, sweep.re_replicated),
        trimmed: sweep.trimmed,
        under_remaining: balance::under_replicated(c).len() as usize,
        over_remaining: balance::over_replicated(c).len() as usize,
    }
}

/// The cluster and the retirement when the next step is due, and the step. When all
/// entries have been looked at, the shard is detached.
pub open spec fn retire_next(c: store::ClusterState, s: RetireState, now: Timestamp) -> (
    store::ClusterState,
    RetireState,
    StepSpec,
)
    decreases rank(s.phase), s.todo.len(),
{
    match s.phase {
        Phase::Copying => if s.todo.len() == 0 {
            let away = without(c, s.shard, now);
            retire_next(
                away,
                RetireState {
                    phase: Phase::Sweeping,
                    sweep: Some(repair::sweep_begun(away, s.batch_size)),
                    ..s
                },
                now,
            )
        } else {
            match refuge(c, s.shard, s.todo[0].0, s.todo[0].1.shards) {
                Some(to) => (c, s, StepSpec::Copy { key: s.todo[0].0, from: s.shard, to }),
                None => retire_next(c, RetireState { todo: s.todo.drop_first(), ..s }, now),
            }
        },
        Phase::Sweeping => {
            let (sweep, step) = repair::sweep_next(c, s.sweep->0);
            let next = RetireState { sweep: Some(sweep), ..s };
            if step is Done {
                (
                    c,
                    RetireState {
                        phase: Phase::Rebuilding,
                        result: swept(c, s.moved, sweep),
                        ..next
                    },
                    StepSpec::Rebuild,
                )
            } else {
                (c, next, StepSpec::Sweep(step))
            }
        },
        Phase::Rebuilding => (c, s, StepSpec::Rebuild),
        Phase::Ended => (c, s, StepSpec::Done),
    }
}

/// The cluster and the retirement after a step was carried out.
pub open spec fn retire_reported(
    c: store::ClusterState,
    s: RetireState,
    step: StepSpec,
    outcome: SweepOutcome,
    now: Timestamp,
) -> (store::ClusterState, RetireState) {
    match step {
        StepSpec::Copy { key, from, to } => {
            let next = RetireState {
                todo: if s.todo.len() > 0 {
                    s.todo.drop_first()
                } else {
                    s.todo
                },
                ..s
            };
            match outcome {
                SweepOutcome::Copied { size, meta_len } => (
                    scan::copied(c, key, to, size, repair::recorded_len(meta_len), now),
                    RetireState { moved: tally::up(s.moved), ..next },
                ),
                _ => (c, next),
            }
        },
        StepSpec::Sweep(inner) => match s.sweep {
            Some(sweep) => {
                let (after, next) = repair::sweep_reported(c, sweep, inner, outcome, now);
                (after, RetireState { sweep: Some(next), ..s })
            },
            None => (c, s),
        },
        StepSpec::Rebuild => (c, RetireState { phase: Phase::Ended, ..s }),
        StepSpec::Done => (c, s),
    }
}

/// A retirement in progress.
#[derive(Debug)]
pub struct RetireJob {
    shard: ShardId,
    batch_size: usize,
    phase: Phase,
    entries: Vec<(String, PlacementEntry)>,
    pos: usize,
    moved: usize,
    sweep: Option<RepairSweep>,
    result: RepairReplicationResult,
}

impl View for RetireJob {
    type V = RetireState;

    closed spec fn view(&self) -> RetireState {
        RetireState {
            shard: self.shard,
            batch_size: self.batch_size as nat,
            phase: self.phase,
            todo: catalog::entry_views(self.entries@).skip(self.pos as int),
            moved: self.moved,
            sweep: match self.sweep {
                Some(s) => Some(s@),
                None => None,
            },
            result: self.result,
        }
    }
}

/// What a retirement that may have begun looks like.
pub open spec fn job_view(r: Option<RetireJob>) -> Option<RetireState> {
    match r {
        Some(j) => Some(j@),
        None => None,
    }
}

/// Begins to retire a shard, with sweeps of at most as many objects as a batch holds;
/// none if there is no such shard.
pub fn retire_shard(store: &ShardedObjectStore, shard_id: ShardId, batch_size: usize) -> (r: Option<
    RetireJob,
>)
    ensures
        job_view(r) == retire_begun(store@, shard_id, batch_size as nat),
{
    if shard_id >= store.shard_count() {
        return None;
    }
    let entries = store.catalog().entries_for_shard(shard_id);
    let job = RetireJob {
        shard: shard_id,
        batch_size,
        phase: Phase::Copying,
        entries,
        pos: 0,
        moved: 0,
        sweep: None,
        result: RepairReplicationResult {
            re_replicated: 0,
            trimmed: 0,
            under_remaining: 0,
            over_remaining: 0,
        },
    };
    assert(job@.todo =~= catalog::entry_views(entries@));
    Some(job)
}

impl ShardedObjectStore {
    fn find_refuge(&self, shard: ShardId, key: &str, held: &[ShardId]) -> (r: Option<ShardId>)
        ensures
            r == refuge(self@, shard, key@, held@),
    {
        match self.healthy_source(held, Some(shard)) {
            Some(_) => None,
            None => self.find_replication_target(key),
        }
    }
}

impl RetireJob {
    #[verifier::type_invariant]
    spec fn inv(&self) -> bool {
        &&& self.pos <= self.entries@.len()
        &&& self.phase == Phase::Sweeping ==> self.sweep is Some
    }

    /// What comes next, given the cluster as it is.
    pub fn next(&mut self, store: &mut ShardedObjectStore, now: Timestamp) -> (step: RetireStep)
        ensures
            (final(store)@, final(self)@, step@) == retire_next(old(store)@, old(self)@, now),
            store::valid(old(store)@) ==> store::valid(final(store)@),
    {
        proof {
            use_type_invariant(&*self);
        }
        loop
            invariant
                self.pos <= self.entries@.len(),
                self.phase == Phase::Sweeping ==> self.sweep is Some,
                retire_next(store@, self@, now) == retire_next(old(store)@, old(self)@, now),
                store::valid(old(store)@) ==> store::valid(store@),
            decreases rank(self.phase), self.entries@.len() - self.pos,
        {
            let ghost all = catalog::entry_views(self.entries@);
            assert(self@.todo == all.skip(self.pos as int));
            match self.phase {
                Phase::Copying => {
                    if self.pos >= self.entries.len() {
                        store.detach_shard_at(self.shard, now);
                        self.sweep = Some(repair_replication_sweep(store, self.batch_size));
                        self.phase = Phase::Sweeping;
                    } else {
                        assert(self@.todo[0] == all[self.pos as int]);
                        assert(self@.todo.drop_first() =~= all.skip(self.pos + 1));
                        let (key, entry) = &self.entries[self.pos];
                        let to = store.find_refuge(self.shard, key.as_str(), entry.shards.as_slice());
                        if let Some(to) = to {
                            return RetireStep::Copy { key: key.clone(), from: self.shard, to };
                        }
                        self.pos = self.pos + 1;
                    }
                },
                Phase::Sweeping => {
                    let mut sweep: Option<RepairSweep> = None;
                    let phase = self.phase;
                    self.phase = Phase::Rebuilding;
                    std::mem::swap(&mut self.sweep, &mut sweep);
                    if let Some(mut sweep) = sweep {
                        let step = sweep.next(store);
                        match step {
                            SweepStep::Done => {
                                let r = sweep.result(store);
                                self.result = RepairReplicationResult {
                                    re_replicated: self.moved.saturating_add(r.re_replicated),
                                    ..r
                                };
                                self.sweep = Some(sweep);
                            },
                            _ => {
                                self.sweep = Some(sweep);
                                self.phase = phase;
                                return RetireStep::Sweep(step);
                            },
                        }
                    }
                    return RetireStep::Rebuild;
                },
                Phase::Rebuilding => {
                    return RetireStep::Rebuild;
                },
                Phase::Ended => {
                    return RetireStep::Done;
                },
            }
        }
    }

    /// Takes the outcome of the step that was due.
    pub fn report(
        &mut self,
        store: &mut ShardedObjectStore,
        step: &RetireStep,
        outcome: SweepOutcome,
        now: Timestamp,
    )
        ensures
            (final(store)@, final(self)@) == retire_reported(
                old(store)@,
                old(self)@,
                step@,
                outcome,
                now,
            ),
            store::valid(old(store)@) ==> store::valid(final(store)@),
    {
        proof {
            use_type_invariant(&*self);
        }
        match step {
            RetireStep::Copy { key, to, .. } => {
                if self.pos < self.entries.len() {
                    assert(self@.todo.drop_first() =~= catalog::entry_views(self.entries@).skip(
                        self.pos + 1,
                    ));
                    self.pos = self.pos + 1;
                }
                if let SweepOutcome::Copied { size, meta_len } = outcome {
                    store.record_copy(key.as_str(), *to, size, meta_len, now);
                    self.moved = count_up(self.moved);
                }
            },
            RetireStep::Sweep(inner) => {
                let mut sweep: Option<RepairSweep> = None;
                let phase = self.phase;
                self.phase = Phase::Ended;
                std::mem::swap(&mut self.sweep, &mut sweep);
                if let Some(mut sweep) = sweep {
                    sweep.report(store, inner, outcome, now);
                    self.sweep = Some(sweep);
                }
                self.phase = phase;
            },
            RetireStep::Rebuild => {
                self.phase = Phase::Ended;
            },
            RetireStep::Done => {},
        }
    }

    /// The outcome of the retirement, once its sweep has ended.
    pub fn result(&self) -> (r: RepairReplicationResult)
        ensures
            r == self@.result,
    {
        self.result
    }
}

// -- Laws -------------------------------------------------------------------

/// An object is copied off the shard only if no other shard that has it is healthy, and
/// only to a healthy shard that does not have it.
pub proof fn only_what_is_nowhere_else_is_copied_off(
    c: store::ClusterState,
    s: RetireState,
    now: Timestamp,
)
    requires
        s.phase == Phase::Copying,
    ensures
        retire_next(c, s, now).2 matches StepSpec::Copy { key, from, to } ==> {
            let next = retire_next(c, s, now);
            &&& next.0 == c
            &&& from == s.shard
            &&& balance::best_target(c, key, to)
            &&& next.1.todo.len() > 0 && next.1.todo[0].0 == key
            &&& forall|i: int|
                0 <= i < next.1.todo[0].1.shards.len() ==> (#[trigger] next.1.todo[0].1.shards[i])
                    == s.shard || !balance::is_healthy(c.shards, next.1.todo[0].1.shards[i])
        },
    decreases s.todo.len(),
{
    if s.todo.len() == 0 {
        lemma_sweeping(
            without(c, s.shard, now),
            RetireState {
                phase: Phase::Sweeping,
                sweep: Some(repair::sweep_begun(without(c, s.shard, now), s.batch_size)),
                ..s
            },
            now,
        );
    } else {
        let held = s.todo[0].1.shards;
        match refuge(c, s.shard, s.todo[0].0, held) {
            Some(to) => {
                lemma_no_source(c.shards, held, s.shard);
            },
            None => {
                only_what_is_nowhere_else_is_copied_off(
                    c,
                    RetireState { todo: s.todo.drop_first(), ..s },
                    now,
                );
            },
        }
    }
}

proof fn lemma_sweeping(c: store::ClusterState, s: RetireState, now: Timestamp)
    requires
        s.phase == Phase::Sweeping,
    ensures
        !(retire_next(c, s, now).2 is Copy),
        retire_next(c, s, now).0 == c,
{
}

proof fn lemma_no_source(shards: Seq<store::ShardInfo>, held: Seq<usize>, but: usize)
    requires
        repair::healthy_source(shards, held, Some(but)) is None,
    ensures
        forall|i: int|
            0 <= i < held.len() ==> (#[trigger] held[i]) == but || !balance::is_healthy(
                shards,
                held[i],
            ),
    decreases held.len(),
{
    if held.len() > 0 {
        lemma_no_source(shards, held.drop_first(), but);
        assert forall|i: int| 0 <= i < held.len() implies (#[trigger] held[i]) == but
            || !balance::is_healthy(shards, held[i]) by {
            if i > 0 {
                assert(held.drop_first()[i - 1] == held[i]);
            }
        }
    }
}

/// Once nothing is left to be copied off it, the shard is offline.
pub proof fn a_retired_shard_is_offline_before_the_sweep(
    c: store::ClusterState,
    s: RetireState,
    now: Timestamp,
)
    requires
        s.phase == Phase::Copying,
        s.shard < c.shards.len(),
    ensures
        !(retire_next(c, s, now).2 is Copy) ==> retire_next(c, s, now).0 == without(
            c,
            s.shard,
            now,
        ) && without(c, s.shard, now).shards[s.shard as int].health == store::ShardHealth::Offline,
    decreases s.todo.len(),
{
    if s.todo.len() == 0 {
        let away = without(c, s.shard, now);
        lemma_sweeping(
            away,
            RetireState {
                phase: Phase::Sweeping,
                sweep: Some(repair::sweep_begun(away, s.batch_size)),
                ..s
            },
            now,
        );
    } else if refuge(c, s.shard, s.todo[0].0, s.todo[0].1.shards) is None {
        a_retired_shard_is_offline_before_the_sweep(
            c,
            RetireState { todo: s.todo.drop_first(), ..s },
            now,
        );
    }
}

/// The sweep copies nothing to a shard that is not healthy, and nothing from it.
pub proof fn a_retired_shard_is_left_alone_by_the_sweep(
    c: store::ClusterState,
    s: RetireState,
    now: Timestamp,
)
    requires
        s.phase == Phase::Sweeping,
        !balance::is_healthy(c.shards, s.shard),
    ensures
        retire_next(c, s, now).2 matches StepSpec::Sweep(
            repair::StepSpec::Copy { key, from, to },
        ) ==> from != s.shard && to != s.shard,
{
    repair::a_sweep_copies_only_what_has_too_few_copies(c, s.sweep->0);
    if let repair::StepSpec::Copy { key, from, to } = repair::sweep_next(c, s.sweep->0).1 {
        repair::a_copy_goes_where_it_is_missing(c, key, 0, 0, now);
    }
}

/// A shard that exists can be retired. Every object that is listed on it is looked at,
/// with the shards that held it when the retirement began.
pub proof fn a_retirement_looks_at_every_object_of_the_shard(
    c: store::ClusterState,
    shard: usize,
    batch_size: nat,
    key: Seq<char>,
)
    requires
        c.entries.dom().finite(),
    ensures
        retire_begun(c, shard, batch_size) is Some <==> shard < c.shards.len(),
        retire_begun(c, shard, batch_size) matches Some(s) ==> {
            &&& s.shard == shard && s.batch_size == batch_size && s.phase == Phase::Copying
                && s.moved == 0
            &&& c.entries.contains_key(key) && c.entries[key].shards.contains(shard)
                <==> exists|i: int|
                0 <= i < s.todo.len() && (#[trigger] s.todo[i]) == (key, c.entries[key])
        },
{
    let keys = catalog::keys_on_shard(c.entries, shard);
    catalog::the_entries_of_a_shard_are_those_that_list_it(c.entries, shard);
    if let Some(s) = retire_begun(c, shard, batch_size) {
        if keys.contains(key) {
            let i = keys.index_of(key);
            assert(s.todo[i] == (key, c.entries[key]));
        }
        if exists|i: int| 0 <= i < s.todo.len() && (#[trigger] s.todo[i]) == (key, c.entries[key]) {
            let i = choose|i: int|
                0 <= i < s.todo.len() && (#[trigger] s.todo[i]) == (key, c.entries[key]);
            assert(keys[i] == key);
            assert(keys.contains(key));
        }
    }
}

/// Whether an object has to be copied off the shard: no other shard that held it is
/// healthy, and a healthy shard does not have it.
pub open spec fn must_leave(
    c: store::ClusterState,
    shard: usize,
    key: Seq<char>,
    held: Seq<usize>,
) -> bool {
    let healthy = |id: usize|
        id < c.shards.len() && c.shards[id as int].health == store::ShardHealth::Healthy;
    &&& forall|i: int| 0 <= i < held.len() ==> (#[trigger] held[i]) == shard || !healthy(held[i])
    &&& exists|id: usize| #[trigger]
        healthy(id) && !(c.entries.contains_key(key) && c.entries[key].shards.contains(id))
}

proof fn lemma_refuge(c: store::ClusterState, shard: usize, key: Seq<char>, held: Seq<usize>)
    requires
        c.shards.len() <= usize::MAX,
    ensures
        refuge(c, shard, key, held) is Some <==> must_leave(c, shard, key, held),
{
    let healthy = |id: usize|
        id < c.shards.len() && c.shards[id as int].health == store::ShardHealth::Healthy;
    repair::the_source_is_the_first_healthy_shard(c.shards, held, Some(shard));
    balance::a_copy_is_added_where_most_space_is_free(c, key);
    let free = |id: usize|
        id < c.shards.len() && c.shards[id as int].health == store::ShardHealth::Healthy && !(
        c.entries.contains_key(key) && c.entries[key].shards.contains(id));
    if let Some(to) = balance::replication_target(c, key) {
        assert(balance::best_target(c, key, to));
        assert(healthy(to) && !(c.entries.contains_key(key) && c.entries[key].shards.contains(to)));
    } else {
        assert forall|id: usize| #[trigger] healthy(id) implies c.entries.contains_key(key)
            && c.entries[key].shards.contains(id) by {
            assert(!free(id));
        }
    }
    if repair::healthy_source(c.shards, held, Some(shard)) is None {
        lemma_no_source(c.shards, held, shard);
    } else {
        repair::lemma_healthy_source(c.shards, held, Some(shard));
        let id = repair::healthy_source(c.shards, held, Some(shard))->0;
        let i = held.index_of(id);
        assert(held[i] == id && healthy(held[i]));
    }
}

/// No object is lost with the shard: as long as one of those that are still to be looked
/// at has to be copied off it, the next step is a copy of the first such object.
pub proof fn a_retirement_passes_over_nothing_that_must_leave(
    c: store::ClusterState,
    s: RetireState,
    i: int,
    now: Timestamp,
)
    requires
        c.shards.len() <= usize::MAX,
        s.phase == Phase::Copying,
        0 <= i < s.todo.len(),
        must_leave(c, s.shard, s.todo[i].0, s.todo[i].1.shards),
        forall|k: int|
            0 <= k < i ==> !must_leave(
                c,
                s.shard,
                (#[trigger] s.todo[k]).0,
                s.todo[k].1.shards,
            ),
    ensures
        ({
            let (after, next, step) = retire_next(c, s, now);
            &&& after == c
            &&& step matches StepSpec::Copy { key, from, to } && key == s.todo[i].0 && from
                == s.shard
            &&& next.todo == s.todo.skip(i)
        }),
    decreases s.todo.len(),
{
    lemma_refuge(c, s.shard, s.todo[0].0, s.todo[0].1.shards);
    if i == 0 {
        assert(s.todo.skip(0) =~= s.todo);
    } else {
        assert(!must_leave(c, s.shard, s.todo[0].0, s.todo[0].1.shards));
        let rest = RetireState { todo: s.todo.drop_first(), ..s };
        assert(rest.todo[i - 1] == s.todo[i]);
        assert forall|k: int| 0 <= k < i - 1 implies !must_leave(
            c,
            rest.shard,
            (#[trigger] rest.todo[k]).0,
            rest.todo[k].1.shards,
        ) by {
            assert(rest.todo[k] == s.todo[k + 1]);
        }
        a_retirement_passes_over_nothing_that_must_leave(c, rest, i - 1, now);
        assert(rest.todo.skip(i - 1) =~= s.todo.skip(i));
    }
}

/// When nothing has to leave the shard any more, it is taken away and a sweep begins in
/// the cluster without it. The step is that of the sweep, or to rebuild the catalog if
/// the sweep has nothing to do. What was copied off counts as copied again.
pub proof fn a_retirement_sweeps_without_the_shard(
    c: store::ClusterState,
    s: RetireState,
    now: Timestamp,
)
    requires
        c.shards.len() <= usize::MAX,
        s.shard < c.shards.len(),
        s.phase == Phase::Copying,
        forall|k: int|
            0 <= k < s.todo.len() ==> !must_leave(
                c,
                s.shard,
                (#[trigger] s.todo[k]).0,
                s.todo[k].1.shards,
            ),
    ensures
        ({
            let (after, next, step) = retire_next(c, s, now);
            let first = repair::sweep_next(after, repair::sweep_begun(after, s.batch_size));
            &&& after.shards[s.shard as int].health == store::ShardHealth::Offline
            &&& after.entries == c.entries
            &&& first.1 !is Done ==> step == StepSpec::Sweep(first.1) && next.phase
                == Phase::Sweeping
            &&& first.1 is Done ==> step == StepSpec::Rebuild && next.phase == Phase::Rebuilding
                && next.result.re_replicated == s.moved && next.result.trimmed == 0
        }),
    decreases s.todo.len(),
{
    if s.todo.len() == 0 {
        let away = without(c, s.shard, now);
        repair::lemma_counts_kept(away, repair::sweep_begun(away, s.batch_size));
        lemma_sweeping(
            away,
            RetireState {
                phase: Phase::Sweeping,
                sweep: Some(repair::sweep_begun(away, s.batch_size)),
                ..s
            },
            now,
        );
    } else {
        lemma_refuge(c, s.shard, s.todo[0].0, s.todo[0].1.shards);
        assert(!must_leave(c, s.shard, s.todo[0].0, s.todo[0].1.shards));
        let rest = RetireState { todo: s.todo.drop_first(), ..s };
        assert forall|k: int| 0 <= k < rest.todo.len() implies !must_leave(
            c,
            rest.shard,
            (#[trigger] rest.todo[k]).0,
            rest.todo[k].1.shards,
        ) by {
            assert(rest.todo[k] == s.todo[k + 1]);
        }
        a_retirement_sweeps_without_the_shard(c, rest, now);
    }
}

/// While the sweep has something to do, its steps are carried out; when it has nothing
/// left to do, the catalog is rebuilt, and then the retirement is done. Its outcome
/// counts what was copied off and what the sweep has done, and the objects that still
/// have too few or too many copies.
pub proof fn a_retirement_ends_with_its_sweep(
    c: store::ClusterState,
    s: RetireState,
    outcome: SweepOutcome,
    now: Timestamp,
)
    requires
        s.phase == Phase::Sweeping,
        s.sweep is Some,
        balance::under_replicated(c).len() <= usize::MAX,
        balance::over_replicated(c).len() <= usize::MAX,
    ensures
        ({
            let (after, next, step) = retire_next(c, s, now);
            let (sweep, inner) = repair::sweep_next(c, s.sweep->0);
            let (_, told) = retire_reported(after, next, step, outcome, now);
            &&& after == c
            &&& inner !is Done ==> step == StepSpec::Sweep(inner) && told.sweep == Some(
                repair::sweep_reported(c, sweep, inner, outcome, now).1,
            )
            &&& inner is Done ==> {
                &&& step == StepSpec::Rebuild
                &&& s.moved + sweep.re_replicated <= usize::MAX ==> next.result.re_replicated
                    == s.moved + sweep.re_replicated
                &&& next.result.trimmed == sweep.trimmed
                &&& next.result.under_remaining == balance::under_replicated(c).len()
                &&& next.result.over_remaining == balance::over_replicated(c).len()
                &&& told.phase == Phase::Ended && told.result == next.result
                &&& retire_next(c, told, now).2 is Done
            }
        }),
{
}

/// An object that was copied off the shard is listed where it went, and counted. One that
/// could not be is left. Either way it is looked at no more.
pub proof fn an_object_that_was_copied_off_is_listed(
    c: store::ClusterState,
    s: RetireState,
    key: Seq<char>,
    to: usize,
    size: u64,
    meta_len: Option<usize>,
    now: Timestamp,
)
    requires
        s.todo.len() > 0,
        s.moved < usize::MAX,
    ensures
        ({
            let step = StepSpec::Copy { key, from: s.shard, to };
            let (good, g) = retire_reported(
                c,
                s,
                step,
                SweepOutcome::Copied { size, meta_len },
                now,
            );
            let (bad, b) = retire_reported(c, s, step, SweepOutcome::Failed, now);
            &&& good.entries.contains_key(key) && good.entries[key].shards.contains(to)
            &&& g.moved == s.moved + 1 && b.moved == s.moved
            &&& bad == c
            &&& g.todo == s.todo.drop_first() && b.todo == s.todo.drop_first()
        }),
{
    catalog::a_replica_that_was_found_is_listed(
        c.entries,
        key,
        to,
        size,
        repair::recorded_len(meta_len),
        now,
    );
}

} // verus!
