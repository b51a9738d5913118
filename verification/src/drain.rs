//! Draining a shard: moving its objects to the other shards before it is removed.

use vstd::prelude::*;
use vstd::string::*;
use crate::balance;
use crate::catalog;
use crate::metadata;
use crate::metadata::is_sidecar;
use crate::ids;
use crate::ids::ShardId;
use crate::placement;
use crate::repair;
use crate::repair::{repair_replication_sweep, RepairSweep, SweepOutcome, SweepStep};
use crate::retire;
use crate::scan;
use crate::store;
use crate::store::ShardedObjectStore;
use crate::tally;
use crate::tally::count_up;
use crate::text;
use crate::time::Timestamp;

verus! {

/// The outcome of a drain.
#[derive(Debug, Clone, Copy, PartialEq, Eq, Structural)]
pub struct DrainReport {
    /// Objects that were moved to other shards.
    pub moved: usize,
    /// Objects of which other shards had a copy.
    pub skipped: usize,
    /// Objects that could not be moved.
    pub errors: usize,
    /// Objects that were deleted from the shard.
    pub deleted: usize,
    /// Objects that could not be deleted from the shard.
    pub delete_errors: usize,
    /// Copies that were made to have enough again.
    pub re_replicated: usize,
    /// Objects that still have too few copies.
    pub under_remaining: usize,
}

/// A drain that has done nothing yet.
pub open spec fn no_report() -> DrainReport {
    DrainReport {
        moved: 0,
        skipped: 0,
        errors: 0,
        deleted: 0,
        delete_errors: 0,
        re_replicated: 0,
        under_remaining: 0,
    }
}

/// Where a drain is.
#[derive(Debug, Clone, Copy, PartialEq, Eq, Structural)]
pub enum Phase {
    /// Objects are moved to other shards.
    Moving,
    /// Objects that are safe elsewhere are deleted.
    Deleting,
    /// Copies are made of objects that have too few.
    Sweeping,
    Ended,
}

/// A drain in progress.
pub struct DrainState {
    pub victim: usize,
    pub phase: Phase,
    /// The objects that are still to be looked at in this phase.
    pub todo: Seq<Seq<char>>,
    /// The objects that are safe elsewhere.
    pub safe: Seq<Seq<char>>,
    pub report: DrainReport,
    pub sweep: Option<repair::SweepState>,
}

/// A drain of a shard that lists some objects.
pub open spec fn drain_begun(victim: usize, files: Seq<Seq<char>>) -> DrainState {
    DrainState {
        victim,
        phase: Phase::Moving,
        todo: files.filter(|k: Seq<char>| !metadata::names_sidecar(k)),
        safe: Seq::empty(),
        report: no_report(),
        sweep: None,
    }
}

/// Whether the catalog has an object on another shard.
pub open spec fn kept_elsewhere(c: store::ClusterState, victim: usize, key: Seq<char>) -> bool {
    c.entries.contains_key(key) && exists|i: int|
        0 <= i < c.entries[key].shards.len() && (#[trigger] c.entries[key].shards[i]) != victim
}

/// What comes next in a drain.
pub enum StepSpec {
    Move(Seq<char>),
    Delete(Seq<char>),
    Sweep(repair::StepSpec),
    Done,
}

/// What comes next in a drain.
#[derive(Debug)]
pub enum DrainStep {
    /// Read the object from the shard and put it to the other shards.
    Move(String),
    /// Delete the object, and its sidecar, from the shard.
    Delete(String),
    /// Carry out a step of the sweep.
    Sweep(SweepStep),
    /// There is nothing left to do.
    Done,
}

impl View for DrainStep {
    type V = StepSpec;

    open spec fn view(&self) -> StepSpec {
        match *self {
            DrainStep::Move(k) => StepSpec::Move(k@),
            DrainStep::Delete(k) => StepSpec::Delete(k@),
            DrainStep::Sweep(s) => StepSpec::Sweep(s@),
            DrainStep::Done => StepSpec::Done,
        }
    }
}

/// The outcome of a step.
#[derive(Debug, Clone, Copy, PartialEq, Eq, Structural)]
pub enum DrainOutcome {
    Succeeded,
    Failed,
    /// The outcome of a step of the sweep.
    Swept(SweepOutcome),
}

/// How far a phase is from the end.
pub open spec fn rank(phase: Phase) -> nat {
    match phase {
        Phase::Moving => 3,
        Phase::Deleting => 2,
        Phase::Sweeping => 1,
        Phase::Ended => 0,
    }
}

/// The cluster and the drain when the next step is due, and the step. Objects of which
/// other shards have a copy need not be moved. When all have been looked at, the
/// catalog no longer refers to the shard; then what is safe is deleted from it, it is
/// detached, and copies are made of what has too few.
pub open spec fn drain_next(c: store::ClusterState, s: DrainState, now: Timestamp) -> (
    store::ClusterState,
    DrainState,
    StepSpec,
)
    decreases rank(s.phase), s.todo.len(),
{
    match s.phase {
        Phase::Moving => if s.todo.len() == 0 {
            drain_next(
                scan::purged(c, s.victim),
                DrainState { phase: Phase::Deleting, todo: s.safe, ..s },
                now,
            )
        } else if kept_elsewhere(c, s.victim, s.todo[0]) {
            drain_next(
                c,
                DrainState {
                    todo: s.todo.drop_first(),
                    safe: s.safe.push(s.todo[0]),
                    report: DrainReport { skipped: tally::up(s.report.skipped), ..s.report },
                    ..s
                },
                now,
            )
        } else {
            (c, s, StepSpec::Move(s.todo[0]))
        },
        Phase::Deleting => if s.todo.len() == 0 {
            let away = retire::without(c, s.victim, now);
            drain_next(
                away,
                DrainState {
                    phase: Phase::Sweeping,
                    sweep: Some(repair::sweep_begun(away, usize::MAX as nat)),
                    ..s
                },
                now,
            )
        } else {
            (c, s, StepSpec::Delete(s.todo[0]))
        },
        Phase::Sweeping => {
            let (sweep, step) = repair::sweep_next(c, s.sweep->0);
            let next = DrainState { sweep: Some(sweep), ..s };
            if step is Done {
                (
                    c,
                    DrainState {
                        phase: Phase::Ended,
                        report: DrainReport {
                            re_replicated: sweep.re_replicated,
                            under_remaining: balance::under_replicated(c).len() as usize,
                            ..s.report
                        },
                        ..next
                    },
                    StepSpec::Done,
                )
            } else {
                (c, next, StepSpec::Sweep(step))
            }
        },
        Phase::Ended => (c, s, StepSpec::Done),
    }
}

/// The cluster and the drain after a step was carried out. An object that was moved is
/// safe, one that could not be is left where it is.
pub open spec fn drain_reported(
    c: store::ClusterState,
    s: DrainState,
    step: StepSpec,
    outcome: DrainOutcome,
    now: Timestamp,
) -> (store::ClusterState, DrainState) {
    let rest = if s.todo.len() > 0 {
        s.todo.drop_first()
    } else {
        s.todo
    };
    match step {
        StepSpec::Move(key) => (
            c,
            if outcome == DrainOutcome::Succeeded {
                DrainState {
                    todo: rest,
                    safe: s.safe.push(key),
                    report: DrainReport { moved: tally::up(s.report.moved), ..s.report },
                    ..s
                }
            } else {
                DrainState {
                    todo: rest,
                    report: DrainReport { errors: tally::up(s.report.errors), ..s.report },
                    ..s
                }
            },
        ),
        StepSpec::Delete(_) => (
            c,
            DrainState {
                todo: rest,
                report: if outcome == DrainOutcome::Succeeded {
                    DrainReport { deleted: tally::up(s.report.deleted), ..s.report }
                } else {
                    DrainReport { delete_errors: tally::up(s.report.delete_errors), ..s.report }
                },
                ..s
            },
        ),
        StepSpec::Sweep(inner) => match s.sweep {
            Some(sweep) => {
                let (after, next) = repair::sweep_reported(
                    c,
                    sweep,
                    inner,
                    match outcome {
                        DrainOutcome::Swept(o) => o,
                        _ => SweepOutcome::Failed,
                    },
                    now,
                );
                (after, DrainState { sweep: Some(next), ..s })
            },
            None => (c, s),
        },
        StepSpec::Done => (c, s),
    }
}

/// A drain in progress.
#[derive(Debug)]
pub struct DrainJob {
    victim: ShardId,
    phase: Phase,
    keys: Vec<String>,
    pos: usize,
    safe: Vec<String>,
    report: DrainReport,
    sweep: Option<RepairSweep>,
}

impl View for DrainJob {
    type V = DrainState;

    closed spec fn view(&self) -> DrainState {
        DrainState {
            victim: self.victim,
            phase: self.phase,
            todo: text::views(self.keys@).skip(self.pos as int),
            safe: text::views(self.safe@),
            report: self.report,
            sweep: match self.sweep {
                Some(s) => Some(s@),
                None => None,
            },
        }
    }
}

/// Begins a drain of a shard that lists some objects.
pub fn drain_shard(victim_shard_id: ShardId, files: &Vec<String>) -> (j: DrainJob)
    ensures
        j@ == drain_begun(victim_shard_id, text::views(files@)),
{
    let ghost all = text::views(files@);
    let ghost pred = |k: Seq<char>| !metadata::names_sidecar(k);
    let mut keys: Vec<String> = Vec::new();
    let mut i: usize = 0;
    proof {
        placement::lemma_filter_none(all, pred);
        assert(text::views(keys@) =~= all.take(0).filter(pred));
    }
    while i < files.len()
        invariant
            i <= files.len(),
            all == text::views(files@),
            pred == (|k: Seq<char>| !metadata::names_sidecar(k)),
            text::views(keys@) == all.take(i as int).filter(pred),
        decreases files.len() - i,
    {
        proof {
            placement::lemma_filter_step(all, i as int, pred);
        }
        if !is_sidecar(files[i].as_str()) {
            let ghost before = keys@;
            keys.push(files[i].clone());
            assert(text::views(keys@) =~= text::views(before).push(all[i as int]));
        }
        i = i + 1;
    }
    assert(all.take(i as int) =~= all);
    let job = DrainJob {
        victim: victim_shard_id,
        phase: Phase::Moving,
        keys,
        pos: 0,
        safe: Vec::new(),
        report: DrainReport {
            moved: 0,
            skipped: 0,
            errors: 0,
            deleted: 0,
            delete_errors: 0,
            re_replicated: 0,
            under_remaining: 0,
        },
        sweep: None,
    };
    assert(job@.todo =~= text::views(keys@));
    assert(job@.safe =~= Seq::<Seq<char>>::empty());
    job
}

fn push_text(v: &mut Vec<String>, s: String)
    ensures
        text::views(final(v)@) == text::views(old(v)@).push(s@),
{
    v.push(s);
    assert(text::views(v@) =~= text::views(old(v)@).push(s@));
}

impl ShardedObjectStore {
    fn is_kept_elsewhere(&self, victim: ShardId, key: &str) -> (r: bool)
        ensures
            r == kept_elsewhere(self@, victim, key@),
    {
        let entry = match self.placement(key) {
            Some(e) => e,
            None => {
                return false;
            },
        };
        let mut i: usize = 0;
        while i < entry.shards.len()
            invariant
                i <= entry.shards.len(),
                self@.entries.contains_key(key@),
                entry.shards@ == self@.entries[key@].shards,
                forall|k: int| 0 <= k < i ==> (#[trigger] entry.shards@[k]) == victim,
            decreases entry.shards.len() - i,
        {
            if entry.shards[i] != victim {
                assert(self@.entries[key@].shards[i as int] != victim);
                return true;
            }
            i = i + 1;
        }
        false
    }
}

impl DrainJob {
    #[verifier::type_invariant]
    spec fn inv(&self) -> bool {
        &&& self.pos <= self.keys@.len()
        &&& self.phase == Phase::Sweeping ==> self.sweep is Some
    }

    /// What comes next, given the cluster as it is.
    pub fn next(&mut self, store: &mut ShardedObjectStore, now: Timestamp) -> (step: DrainStep)
        ensures
            (final(store)@, final(self)@, step@) == drain_next(old(store)@, old(self)@, now),
            store::valid(old(store)@) ==> store::valid(final(store)@),
    {
        proof {
            use_type_invariant(&*self);
        }
        loop
            invariant
                self.pos <= self.keys@.len(),
                self.phase == Phase::Sweeping ==> self.sweep is Some,
                drain_next(store@, self@, now) == drain_next(old(store)@, old(self)@, now),
                store::valid(old(store)@) ==> store::valid(store@),
            decreases rank(self.phase), self.keys@.len() - self.pos,
        {
            let ghost all = text::views(self.keys@);
            assert(self@.todo == all.skip(self.pos as int));
            if self.pos < self.keys.len() {
                assert(self@.todo[0] == self.keys@[self.pos as int]@);
                assert(self@.todo.drop_first() =~= all.skip(self.pos + 1));
            }
            match self.phase {
                Phase::Moving => {
                    if self.pos >= self.keys.len() {
                        store.catalog_mut().remove_all_for_shard(self.victim);
                        let mut keys: Vec<String> = copy_texts(&self.safe);
                        assert(text::views(keys@).skip(0) =~= text::views(self.safe@));
                        self.pos = 0;
                        std::mem::swap(&mut self.keys, &mut keys);
                        self.phase = Phase::Deleting;
                    } else {
                        let key = self.keys[self.pos].clone();
                        if !store.is_kept_elsewhere(self.victim, key.as_str()) {
                            return DrainStep::Move(key);
                        }
                        let mut safe: Vec<String> = Vec::new();
                        std::mem::swap(&mut self.safe, &mut safe);
                        push_text(&mut safe, key);
                        self.safe = safe;
                        self.report.skipped = count_up(self.report.skipped);
                        self.pos = self.pos + 1;
                    }
                },
                Phase::Deleting => {
                    if self.pos < self.keys.len() {
                        return DrainStep::Delete(self.keys[self.pos].clone());
                    }
                    store.detach_shard_at(self.victim, now);
                    self.sweep = Some(repair_replication_sweep(store, usize::MAX));
                    self.phase = Phase::Sweeping;
                },
                Phase::Sweeping => {
                    let mut sweep: Option<RepairSweep> = None;
                    let phase = self.phase;
                    self.phase = Phase::Ended;
                    std::mem::swap(&mut self.sweep, &mut sweep);
                    if let Some(mut sweep) = sweep {
                        let step = sweep.next(store);
                        match step {
                            SweepStep::Done => {
                                let r = sweep.result(store);
                                self.report.re_replicated = r.re_replicated;
                                self.report.under_remaining = r.under_remaining;
                                self.sweep = Some(sweep);
                                return DrainStep::Done;
                            },
                            _ => {
                                self.sweep = Some(sweep);
                                self.phase = phase;
                                return DrainStep::Sweep(step);
                            },
                        }
                    }
                    return DrainStep::Done;
                },
                Phase::Ended => {
                    return DrainStep::Done;
                },
            }
        }
    }

    /// Takes the outcome of the step that was due.
    pub fn report(
        &mut self,
        store: &mut ShardedObjectStore,
        step: &DrainStep,
        outcome: DrainOutcome,
        now: Timestamp,
    )
        ensures
            (final(store)@, final(self)@) == drain_reported(
                old(store)@,
                old(self)@,
                step@,
                outcome,
                now,
            ),
            store::valid(old(store)@) ==> store::valid(final(store)@),
    {
        proof {
            use_type_invariant(&*self);
        }
        let ok = match outcome {
            DrainOutcome::Succeeded => true,
            _ => false,
        };
        match step {
            DrainStep::Move(key) => {
                self.advance();
                proof {
                    use_type_invariant(&*self);
                }
                if ok {
                    let mut safe: Vec<String> = Vec::new();
                    std::mem::swap(&mut self.safe, &mut safe);
                    push_text(&mut safe, key.clone());
                    self.safe = safe;
                    self.report.moved = count_up(self.report.moved);
                } else {
                    self.report.errors = count_up(self.report.errors);
                }
            },
            DrainStep::Delete(_) => {
                self.advance();
                proof {
                    use_type_invariant(&*self);
                }
                if ok {
                    self.report.deleted = count_up(self.report.deleted);
                } else {
                    self.report.delete_errors = count_up(self.report.delete_errors);
                }
            },
            DrainStep::Sweep(inner) => {
                let o = match outcome {
                    DrainOutcome::Swept(o) => o,
                    _ => SweepOutcome::Failed,
                };
                let mut sweep: Option<RepairSweep> = None;
                let phase = self.phase;
                self.phase = Phase::Ended;
                std::mem::swap(&mut self.sweep, &mut sweep);
                if let Some(mut sweep) = sweep {
                    sweep.report(store, inner, o, now);
                    self.sweep = Some(sweep);
                }
                self.phase = phase;
            },
            DrainStep::Done => {},
        }
    }

    fn advance(&mut self)
        ensures
            final(self)@ == (DrainState {
                todo: if old(self)@.todo.len() > 0 {
                    old(self)@.todo.drop_first()
                } else {
                    old(self)@.todo
                },
                ..old(self)@
            }),
    {
        proof {
            use_type_invariant(&*self);
        }
        if self.pos < self.keys.len() {
            assert(self@.todo.drop_first() =~= text::views(self.keys@).skip(self.pos + 1));
            self.pos = self.pos + 1;
        }
    }

    /// The outcome of the drain so far.
    pub fn outcome(&self) -> (r: DrainReport)
        ensures
            r == self@.report,
    {
        self.report
    }
}

fn copy_texts(v: &Vec<String>) -> (r: Vec<String>)
    ensures
        text::views(r@) == text::views(v@),
{
    let mut r: Vec<String> = Vec::new();
    let mut i: usize = 0;
    assert(text::views(r@) =~= text::views(v@).take(0));
    while i < v.len()
        invariant
            i <= v.len(),
            text::views(r@) == text::views(v@).take(i as int),
        decreases v.len() - i,
    {
        push_text(&mut r, v[i].clone());
        assert(text::views(r@) =~= text::views(v@).take(i + 1));
        i = i + 1;
    }
    assert(text::views(v@).take(i as int) =~= text::views(v@));
    r
}

// -- Laws -------------------------------------------------------------------

/// An object counts as safe only if the catalog has it on another shard, or if it was
/// moved.
pub proof fn only_what_is_elsewhere_becomes_safe(
    c: store::ClusterState,
    s: DrainState,
    step: StepSpec,
    outcome: DrainOutcome,
    now: Timestamp,
)
    requires
        s.phase == Phase::Moving,
    ensures
        ({
            let (_, next, _) = drain_next(c, s, now);
            forall|k: Seq<char>| #[trigger]
                next.safe.contains(k) ==> s.safe.contains(k) || kept_elsewhere(c, s.victim, k)
        }),
        ({
            let (_, next) = drain_reported(c, s, step, outcome, now);
            forall|k: Seq<char>| #[trigger]
                next.safe.contains(k) ==> s.safe.contains(k) || (step == StepSpec::Move(k)
                    && outcome == DrainOutcome::Succeeded)
        }),
    decreases s.todo.len(),
{
    if s.todo.len() > 0 && kept_elsewhere(c, s.victim, s.todo[0]) {
        let t = DrainState {
            todo: s.todo.drop_first(),
            safe: s.safe.push(s.todo[0]),
            report: DrainReport { skipped: tally::up(s.report.skipped), ..s.report },
            ..s
        };
        only_what_is_elsewhere_becomes_safe(c, t, step, outcome, now);
        lemma_push(s.safe, s.todo[0]);
    } else if s.todo.len() == 0 {
        lemma_after_moving(
            scan::purged(c, s.victim),
            DrainState { phase: Phase::Deleting, todo: s.safe, ..s },
            now,
        );
    }
    if let StepSpec::Move(key) = step {
        lemma_push(s.safe, key);
    }
}

proof fn lemma_push(s: Seq<Seq<char>>, x: Seq<char>)
    ensures
        forall|k: Seq<char>| #[trigger] s.push(x).contains(k) ==> s.contains(k) || k == x,
{
    assert forall|k: Seq<char>| #[trigger] s.push(x).contains(k) implies s.contains(k) || k == x by {
        let i = s.push(x).index_of(k);
        if i < s.len() {
            assert(s[i] == k);
        }
    }
}

proof fn lemma_after_moving(c: store::ClusterState, s: DrainState, now: Timestamp)
    requires
        s.phase != Phase::Moving,
    ensures
        drain_next(c, s, now).1.safe == s.safe,
    decreases rank(s.phase),
{
    if s.phase == Phase::Deleting && s.todo.len() == 0 {
        let away = retire::without(c, s.victim, now);
        lemma_after_moving(
            away,
            DrainState {
                phase: Phase::Sweeping,
                sweep: Some(repair::sweep_begun(away, usize::MAX as nat)),
                ..s
            },
            now,
        );
    }
}

/// Whether all objects that are still to be deleted are safe.
pub open spec fn only_safe_left(s: DrainState) -> bool {
    s.phase == Phase::Deleting ==> forall|i: int|
        0 <= i < s.todo.len() ==> s.safe.contains(#[trigger] s.todo[i])
}

/// A drain deletes only objects that are safe: all that it still has to delete are, at
/// every step and after every outcome.
pub proof fn a_drain_deletes_only_what_is_safe(
    c: store::ClusterState,
    s: DrainState,
    step: StepSpec,
    outcome: DrainOutcome,
    now: Timestamp,
)
    requires
        only_safe_left(s),
    ensures
        only_safe_left(drain_next(c, s, now).1),
        drain_next(c, s, now).2 matches StepSpec::Delete(k) ==> drain_next(c, s, now).1.safe.contains(k),
        only_safe_left(drain_reported(c, s, step, outcome, now).1),
    decreases rank(s.phase), s.todo.len(),
{
    if s.phase == Phase::Moving {
        if s.todo.len() == 0 {
            let t = DrainState { phase: Phase::Deleting, todo: s.safe, ..s };
            assert forall|i: int| 0 <= i < t.todo.len() implies t.safe.contains(
                #[trigger] t.todo[i],
            ) by {
                assert(s.safe.contains(s.safe[i]));
            }
            a_drain_deletes_only_what_is_safe(scan::purged(c, s.victim), t, step, outcome, now);
        } else if kept_elsewhere(c, s.victim, s.todo[0]) {
            a_drain_deletes_only_what_is_safe(
                c,
                DrainState {
                    todo: s.todo.drop_first(),
                    safe: s.safe.push(s.todo[0]),
                    report: DrainReport { skipped: tally::up(s.report.skipped), ..s.report },
                    ..s
                },
                step,
                outcome,
                now,
            );
        }
    } else if s.phase == Phase::Deleting {
        if s.todo.len() == 0 {
            let away = retire::without(c, s.victim, now);
            a_drain_deletes_only_what_is_safe(
                away,
                DrainState {
                    phase: Phase::Sweeping,
                    sweep: Some(repair::sweep_begun(away, usize::MAX as nat)),
                    ..s
                },
                step,
                outcome,
                now,
            );
        } else {
            assert(s.safe.contains(s.todo[0]));
        }
        let next = drain_reported(c, s, step, outcome, now).1;
        assert forall|i: int| 0 <= i < next.todo.len() implies next.safe.contains(
            #[trigger] next.todo[i],
        ) by {
            let k = next.todo[i];
            if next.todo == s.todo {
                assert(s.safe.contains(s.todo[i]));
            } else {
                assert(k == s.todo[i + 1]);
            }
            let j = s.safe.index_of(k);
            assert(s.safe[j] == k);
            assert(next.safe[j] == k);
        }
    }
}

/// Whether no entry of the catalog lists a shard.
pub open spec fn listed_nowhere(c: store::ClusterState, shard: usize) -> bool {
    forall|k: Seq<char>| #[trigger]
        c.entries.contains_key(k) ==> !c.entries[k].shards.contains(shard)
}

/// Whether a drain is done with its shard as far as it should be: after the objects have
/// been moved, no entry lists the shard, and when copies are made, the shard takes none.
pub open spec fn left_out(c: store::ClusterState, s: DrainState) -> bool {
    &&& s.phase != Phase::Moving ==> listed_nowhere(c, s.victim)
    &&& s.phase == Phase::Sweeping || s.phase == Phase::Ended ==> !balance::is_healthy(
        c.shards,
        s.victim,
    )
}

/// A drain leaves its shard out: after the objects have been moved, no step and no
/// outcome makes an entry list the shard again.
pub proof fn a_drain_leaves_its_shard_out(
    c: store::ClusterState,
    s: DrainState,
    asked: Timestamp,
    outcome: DrainOutcome,
    told: Timestamp,
)
    requires
        left_out(c, s),
    ensures
        ({
            let (c1, s1, step) = drain_next(c, s, asked);
            let (c2, s2) = drain_reported(c1, s1, step, outcome, told);
            &&& left_out(c1, s1)
            &&& left_out(c2, s2)
            &&& s1.victim == s.victim
            &&& s2.victim == s.victim
            &&& step is Done ==> s1.phase == Phase::Ended
            &&& step is Move ==> s1.phase == Phase::Moving && s2.phase == Phase::Moving
        }),
    decreases rank(s.phase), s.todo.len(),
{
    match s.phase {
        Phase::Moving => if s.todo.len() == 0 {
            let after = scan::purged(c, s.victim);
            assert forall|k: Seq<char>| #[trigger]
                after.entries.contains_key(k) implies !after.entries[k].shards.contains(
                s.victim,
            ) by {
                catalog::a_purged_shard_is_listed_nowhere(c.entries, s.victim, k);
            }
            a_drain_leaves_its_shard_out(
                after,
                DrainState { phase: Phase::Deleting, todo: s.safe, ..s },
                asked,
                outcome,
                told,
            );
        } else if kept_elsewhere(c, s.victim, s.todo[0]) {
            a_drain_leaves_its_shard_out(
                c,
                DrainState {
                    todo: s.todo.drop_first(),
                    safe: s.safe.push(s.todo[0]),
                    report: DrainReport { skipped: tally::up(s.report.skipped), ..s.report },
                    ..s
                },
                asked,
                outcome,
                told,
            );
        },
        Phase::Deleting => if s.todo.len() == 0 {
            let away = retire::without(c, s.victim, asked);
            a_drain_leaves_its_shard_out(
                away,
                DrainState {
                    phase: Phase::Sweeping,
                    sweep: Some(repair::sweep_begun(away, usize::MAX as nat)),
                    ..s
                },
                asked,
                outcome,
                told,
            );
        },
        Phase::Sweeping => {
            let (sweep, step) = repair::sweep_next(c, s.sweep->0);
            if !(step is Done) {
                let o = match outcome {
                    DrainOutcome::Swept(o) => o,
                    _ => SweepOutcome::Failed,
                };
                lemma_sweep_leaves_out(c, s.sweep->0, s.victim, o, told);
            }
        },
        Phase::Ended => {},
    }
}

/// A step of a sweep lists no shard that is not healthy where it was not listed.
proof fn lemma_sweep_leaves_out(
    c: store::ClusterState,
    s: repair::SweepState,
    shard: usize,
    outcome: SweepOutcome,
    now: Timestamp,
)
    requires
        listed_nowhere(c, shard),
        !balance::is_healthy(c.shards, shard),
    ensures
        ({
            let (due, step) = repair::sweep_next(c, s);
            let d = repair::sweep_reported(c, due, step, outcome, now).0;
            listed_nowhere(d, shard) && d.shards == c.shards
        }),
{
    let (due, step) = repair::sweep_next(c, s);
    let d = repair::sweep_reported(c, due, step, outcome, now).0;
    match (step, outcome) {
        (repair::StepSpec::Copy { key, from, to }, SweepOutcome::Copied { size, meta_len }) => {
            repair::a_sweep_copies_only_what_has_too_few_copies(c, s);
            repair::a_copy_goes_where_it_is_missing(
                c,
                key,
                size,
                repair::recorded_len(meta_len),
                now,
            );
            assert forall|k: Seq<char>| #[trigger]
                d.entries.contains_key(k) implies !d.entries[k].shards.contains(shard) by {
                assert(c.entries.contains_key(k));
                assert(!c.entries[k].shards.contains(shard));
                if k == key {
                    scan::lemma_with(c.entries[k].shards, to, shard);
                }
            }
        },
        (repair::StepSpec::Trim { key, shard: from }, SweepOutcome::Trimmed) => {
            assert forall|k: Seq<char>| #[trigger]
                d.entries.contains_key(k) implies !d.entries[k].shards.contains(shard) by {
                assert(c.entries.contains_key(k));
                assert(!c.entries[k].shards.contains(shard));
                if k == key {
                    ids::lemma_without(c.entries[k].shards, from);
                }
            }
        },
        _ => {},
    }
}

/// What happened at a step of a drain.
pub struct DrainEvent {
    /// When the step was asked for.
    pub asked: Timestamp,
    /// The cluster when an object had been put to other shards.
    pub found: store::ClusterState,
    pub outcome: DrainOutcome,
    /// When the outcome was told.
    pub told: Timestamp,
}

/// The cluster and the drain after some steps.
pub open spec fn drained(c: store::ClusterState, s: DrainState, run: Seq<DrainEvent>) -> (
    store::ClusterState,
    DrainState,
)
    decreases run.len(),
{
    if run.len() == 0 {
        (c, s)
    } else {
        let (c0, s0) = drained(c, s, run.drop_last());
        let e = run.last();
        let (c1, s1, step) = drain_next(c0, s0, e.asked);
        drain_reported(
            if step is Move {
                e.found
            } else {
                c1
            },
            s1,
            step,
            e.outcome,
            e.told,
        )
    }
}

proof fn lemma_drained(c: store::ClusterState, s: DrainState, run: Seq<DrainEvent>)
    requires
        left_out(c, s),
    ensures
        left_out(drained(c, s, run).0, drained(c, s, run).1),
        drained(c, s, run).1.victim == s.victim,
    decreases run.len(),
{
    if run.len() > 0 {
        lemma_drained(c, s, run.drop_last());
        let (c0, s0) = drained(c, s, run.drop_last());
        let e = run.last();
        a_drain_leaves_its_shard_out(c0, s0, e.asked, e.outcome, e.told);
    }
}

/// When a drain is done, no entry of the catalog lists its shard, and the shard takes no
/// copies, whatever was put to the other shards and whatever succeeded or failed.
pub proof fn after_a_drain_no_entry_lists_the_shard(
    c: store::ClusterState,
    victim: usize,
    files: Seq<Seq<char>>,
    run: Seq<DrainEvent>,
    now: Timestamp,
)
    ensures
        ({
            let (c1, s1) = drained(c, drain_begun(victim, files), run);
            let (end, _, step) = drain_next(c1, s1, now);
            step is Done ==> listed_nowhere(end, victim) && !balance::is_healthy(
                end.shards,
                victim,
            )
        }),
{
    let s = drain_begun(victim, files);
    lemma_drained(c, s, run);
    let (c1, s1) = drained(c, s, run);
    a_drain_leaves_its_shard_out(c1, s1, now, DrainOutcome::Failed, now);
}

/// A drain looks at every object that the shard lists, in its order. Sidecars go with
/// their objects.
pub proof fn a_drain_looks_at_every_object_of_the_shard(
    victim: usize,
    files: Seq<Seq<char>>,
    key: Seq<char>,
)
    ensures
        ({
            let s = drain_begun(victim, files);
            &&& s.todo.contains(key) <==> files.contains(key) && !metadata::names_sidecar(key)
            &&& s.victim == victim && s.phase == Phase::Moving && s.safe.len() == 0
            &&& s.report.moved == 0 && s.report.skipped == 0 && s.report.errors == 0
                && s.report.deleted == 0 && s.report.delete_errors == 0
        }),
{
    let pred = |k: Seq<char>| !metadata::names_sidecar(k);
    if files.filter(pred).contains(key) {
        files.lemma_filter_pred(pred, files.filter(pred).index_of(key));
        files.lemma_filter_contains_rev(pred, key);
    }
    if files.contains(key) && pred(key) {
        files.lemma_filter_contains(pred, files.index_of(key));
    }
}

/// An object of which no other shard has a copy is moved: the next step is to move the
/// first such object. Those before it are safe, and are counted as skipped.
pub proof fn a_drain_moves_what_is_nowhere_else(
    c: store::ClusterState,
    s: DrainState,
    i: int,
    now: Timestamp,
)
    requires
        s.phase == Phase::Moving,
        0 <= i < s.todo.len(),
        s.report.skipped + s.todo.len() <= usize::MAX,
        c.entries.contains_key(s.todo[i]) ==> forall|j: int|
            0 <= j < c.entries[s.todo[i]].shards.len() ==> (
            #[trigger] c.entries[s.todo[i]].shards[j]) == s.victim,
        forall|k: int|
            0 <= k < i ==> kept_elsewhere(c, s.victim, #[trigger] s.todo[k]),
    ensures
        ({
            let (after, next, step) = drain_next(c, s, now);
            &&& after == c
            &&& step == StepSpec::Move(s.todo[i])
            &&& next.safe == s.safe + s.todo.take(i)
            &&& next.todo == s.todo.skip(i)
            &&& next.report == (DrainReport { skipped: (s.report.skipped + i) as usize, ..s.report })
        }),
    decreases s.todo.len(),
{
    if i == 0 {
        assert(s.safe + s.todo.take(0) =~= s.safe);
        assert(s.todo.skip(0) =~= s.todo);
    } else {
        assert(kept_elsewhere(c, s.victim, s.todo[0]));
        let rest = DrainState {
            todo: s.todo.drop_first(),
            safe: s.safe.push(s.todo[0]),
            report: DrainReport { skipped: tally::up(s.report.skipped), ..s.report },
            ..s
        };
        assert(rest.todo[i - 1] == s.todo[i]);
        assert forall|k: int| 0 <= k < i - 1 implies kept_elsewhere(
            c,
            rest.victim,
            #[trigger] rest.todo[k],
        ) by {
            assert(rest.todo[k] == s.todo[k + 1]);
        }
        a_drain_moves_what_is_nowhere_else(c, rest, i - 1, now);
        assert(rest.safe + rest.todo.take(i - 1) =~= s.safe + s.todo.take(i));
        assert(rest.todo.skip(i - 1) =~= s.todo.skip(i));
    }
}

/// When every object has been looked at, those that are safe are deleted from the shard,
/// which is then listed nowhere.
pub proof fn a_drain_deletes_everything_that_is_safe(
    c: store::ClusterState,
    s: DrainState,
    now: Timestamp,
)
    requires
        s.phase == Phase::Moving,
        s.safe.len() + s.todo.len() > 0,
        forall|k: int|
            0 <= k < s.todo.len() ==> kept_elsewhere(c, s.victim, #[trigger] s.todo[k]),
    ensures
        ({
            let (after, next, step) = drain_next(c, s, now);
            &&& step == StepSpec::Delete((s.safe + s.todo)[0])
            &&& next.todo == s.safe + s.todo
            &&& next.phase == Phase::Deleting
            &&& listed_nowhere(after, s.victim)
            &&& after.shards == c.shards
        }),
    decreases s.todo.len(),
{
    if s.todo.len() == 0 {
        assert(s.safe + s.todo =~= s.safe);
        let after = scan::purged(c, s.victim);
        let t = DrainState { phase: Phase::Deleting, todo: s.safe, ..s };
        assert(drain_next(after, t, now) == (after, t, StepSpec::Delete(t.todo[0])));
        assert forall|k: Seq<char>| #[trigger] after.entries.contains_key(
            k,
        ) implies !after.entries[k].shards.contains(s.victim) by {
            catalog::a_purged_shard_is_listed_nowhere(c.entries, s.victim, k);
        }
    } else {
        assert(kept_elsewhere(c, s.victim, s.todo[0]));
        let rest = DrainState {
            todo: s.todo.drop_first(),
            safe: s.safe.push(s.todo[0]),
            report: DrainReport { skipped: tally::up(s.report.skipped), ..s.report },
            ..s
        };
        assert forall|k: int| 0 <= k < rest.todo.len() implies kept_elsewhere(
            c,
            rest.victim,
            #[trigger] rest.todo[k],
        ) by {
            assert(rest.todo[k] == s.todo[k + 1]);
        }
        assert(rest.safe + rest.todo =~= s.safe + s.todo);
        a_drain_deletes_everything_that_is_safe(c, rest, now);
    }
}

/// What is to be deleted is deleted one after the other, whatever becomes of each. Then
/// the shard is taken away and copies are made in the cluster without it.
pub proof fn a_drain_sweeps_without_its_shard(
    c: store::ClusterState,
    s: DrainState,
    now: Timestamp,
)
    requires
        s.phase == Phase::Deleting,
        s.victim < c.shards.len(),
    ensures
        ({
            let (after, next, step) = drain_next(c, s, now);
            let first = repair::sweep_next(after, repair::sweep_begun(after, usize::MAX as nat));
            &&& s.todo.len() > 0 ==> step == StepSpec::Delete(s.todo[0]) && after == c && next == s
            &&& s.todo.len() == 0 ==> {
                &&& after.shards[s.victim as int].health == store::ShardHealth::Offline
                &&& first.1 !is Done ==> step == StepSpec::Sweep(first.1)
                &&& first.1 is Done ==> step == StepSpec::Done && next.phase == Phase::Ended
                &&& next.report.moved == s.report.moved && next.report.skipped == s.report.skipped
                    && next.report.errors == s.report.errors && next.report.deleted
                    == s.report.deleted && next.report.delete_errors == s.report.delete_errors
            }
        }),
{
    if s.todo.len() == 0 {
        let away = retire::without(c, s.victim, now);
        let next = DrainState {
            phase: Phase::Sweeping,
            sweep: Some(repair::sweep_begun(away, usize::MAX as nat)),
            ..s
        };
        assert(drain_next(c, s, now) == drain_next(away, next, now));
    }
}

/// An object that was moved is safe and counted as such; one that was not is counted as
/// an error and is not safe. An object that was deleted is counted as such, or as an
/// error of its own. Either way it is looked at no more, and the catalog stays as it is.
pub proof fn a_drain_counts_what_was_done(
    c: store::ClusterState,
    s: DrainState,
    key: Seq<char>,
    now: Timestamp,
)
    requires
        s.todo.len() > 0,
        s.report.moved < usize::MAX,
        s.report.errors < usize::MAX,
        s.report.deleted < usize::MAX,
        s.report.delete_errors < usize::MAX,
    ensures
        ({
            let r = s.report;
            let rest = DrainState { todo: s.todo.drop_first(), ..s };
            let good = DrainOutcome::Succeeded;
            let bad = DrainOutcome::Failed;
            &&& drain_reported(c, s, StepSpec::Move(key), good, now) == (
                c,
                DrainState {
                    safe: s.safe.push(key),
                    report: DrainReport { moved: (r.moved + 1) as usize, ..r },
                    ..rest
                },
            )
            &&& drain_reported(c, s, StepSpec::Move(key), bad, now) == (
                c,
                DrainState {
                    report: DrainReport { errors: (r.errors + 1) as usize, ..r },
                    ..rest
                },
            )
            &&& drain_reported(c, s, StepSpec::Delete(key), good, now) == (
                c,
                DrainState {
                    report: DrainReport { deleted: (r.deleted + 1) as usize, ..r },
                    ..rest
                },
            )
            &&& drain_reported(c, s, StepSpec::Delete(key), bad, now) == (
                c,
                DrainState {
                    report: DrainReport { delete_errors: (r.delete_errors + 1) as usize, ..r },
                    ..rest
                },
            )
        }),
{
}

} // verus!
