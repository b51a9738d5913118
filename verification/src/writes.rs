//! Writing an object to several shards.
//!
//! A write goes out to all target shards at once. If every one of them fails they
//! are taken to be offline and the write is tried once more on others; if only some
//! fail they are taken to be degraded. It succeeds if enough shards have taken it.
//! The caller carries out each step and reports what every shard answered.

use vstd::prelude::*;
use vstd::string::*;
use crate::digest::crc32c;
use crate::error;
use crate::error::ShardError;
use crate::ids;
use crate::ids::{copy_ids, drop_ids, ShardId};
use crate::placement;
use crate::store;
use crate::store::{ShardHealth, ShardedObjectStore};
use crate::text;
use crate::text::number;
use crate::time::Timestamp;

verus! {

// -- Answers of shards ------------------------------------------------------

/// What each shard answered: nothing if it succeeded, or an error in words.
pub open spec fn answers(results: Seq<Option<String>>) -> Seq<Option<Seq<char>>> {
    Seq::new(results.len(), |i: int| text::opt_view(results[i]))
}

/// The shards that succeeded.
pub open spec fn successes(asked: Seq<usize>, results: Seq<Option<Seq<char>>>) -> Seq<usize>
    decreases asked.len(),
{
    if asked.len() == 0 || results.len() != asked.len() {
        Seq::empty()
    } else {
        let head = successes(asked.drop_last(), results.drop_last());
        if results.last() is None {
            head.push(asked.last())
        } else {
            head
        }
    }
}

/// The shards that failed.
pub open spec fn failures(asked: Seq<usize>, results: Seq<Option<Seq<char>>>) -> Seq<usize>
    decreases asked.len(),
{
    if asked.len() == 0 || results.len() != asked.len() {
        Seq::empty()
    } else {
        let head = failures(asked.drop_last(), results.drop_last());
        if results.last() is Some {
            head.push(asked.last())
        } else {
            head
        }
    }
}

/// The error of one shard, in words.
pub open spec fn shard_error(id: usize, infix: Seq<char>, message: Seq<char>) -> Seq<char> {
    "shard "@ + text::decimal(id as nat) + infix + message
}

/// The errors of the shards that failed, in words.
pub open spec fn messages(
    asked: Seq<usize>,
    results: Seq<Option<Seq<char>>>,
    infix: Seq<char>,
) -> Seq<Seq<char>>
    decreases asked.len(),
{
    if asked.len() == 0 || results.len() != asked.len() {
        Seq::empty()
    } else {
        let head = messages(asked.drop_last(), results.drop_last(), infix);
        match results.last() {
            Some(m) => head.push(shard_error(asked.last(), infix, m)),
            None => head,
        }
    }
}

/// What comes between the number of a shard and its error: whether it was the second
/// try.
pub open spec fn infix(retried: bool) -> Seq<char> {
    if retried {
        " (retry): "@
    } else {
        ": "@
    }
}

/// Sorts the answers of shards.
pub(crate) fn sort_answers(
    asked: &Vec<ShardId>,
    results: &Vec<Option<String>>,
    between: &str,
) -> (r: (Vec<ShardId>, Vec<ShardId>, Vec<String>))
    requires
        asked.len() == results.len(),
    ensures
        r.0@ == successes(asked@, answers(results@)),
        r.1@ == failures(asked@, answers(results@)),
        text::views(r.2@) == messages(asked@, answers(results@), between@),
        r.0.len() + r.1.len() == asked.len(),
{
    let mut ok: Vec<ShardId> = Vec::new();
    let mut failed: Vec<ShardId> = Vec::new();
    let mut errors: Vec<String> = Vec::new();
    let ghost a = answers(results@);
    let mut i: usize = 0;
    assert(text::views(errors@) =~= Seq::<Seq<char>>::empty());
    while i < asked.len()
        invariant
            i <= asked.len(),
            asked.len() == results.len(),
            a == answers(results@),
            ok@ == successes(asked@.take(i as int), a.take(i as int)),
            failed@ == failures(asked@.take(i as int), a.take(i as int)),
            text::views(errors@) == messages(asked@.take(i as int), a.take(i as int), between@),
            ok.len() + failed.len() == i,
        decreases asked.len() - i,
    {
        proof {
            assert(asked@.take(i + 1).drop_last() =~= asked@.take(i as int));
            assert(a.take(i + 1).drop_last() =~= a.take(i as int));
            assert(asked@.take(i + 1).last() == asked@[i as int]);
            assert(a.take(i + 1).last() == text::opt_view(results@[i as int]));
        }
        match &results[i] {
            None => {
                ok.push(asked[i]);
            },
            Some(m) => {
                let ghost before = errors@;
                let mut e = "shard ".to_owned();
                e.append(number(asked[i] as u64).as_str());
                e.append(between);
                e.append(m.as_str());
                failed.push(asked[i]);
                errors.push(e);
                assert(text::views(errors@) =~= text::views(before).push(
                    shard_error(asked@[i as int], between@, m@),
                ));
            },
        }
        i = i + 1;
    }
    assert(asked@.take(i as int) =~= asked@);
    assert(a.take(i as int) =~= a);
    (ok, failed, errors)
}

// -- Health after a write ---------------------------------------------------

/// The cluster after shards were taken to be offline.
pub open spec fn taken_offline(c: store::ClusterState, failed: Seq<usize>, now: Timestamp) -> store::ClusterState
    decreases failed.len(),
{
    if failed.len() == 0 {
        c
    } else {
        taken_offline(
            store::health_set(c, failed[0], ShardHealth::Offline, now),
            failed.drop_first(),
            now,
        )
    }
}

/// The cluster after a shard failed while others succeeded: a healthy one is
/// degraded.
pub open spec fn degraded(c: store::ClusterState, id: usize, now: Timestamp) -> store::ClusterState {
    if store::health_of(c, id) == Some(ShardHealth::Healthy) {
        store::health_set(c, id, ShardHealth::Degraded, now)
    } else {
        c
    }
}

/// The cluster after shards failed while others succeeded.
pub open spec fn all_degraded(c: store::ClusterState, failed: Seq<usize>, now: Timestamp) -> store::ClusterState
    decreases failed.len(),
{
    if failed.len() == 0 {
        c
    } else {
        all_degraded(degraded(c, failed[0], now), failed.drop_first(), now)
    }
}

/// The cluster after a write, and the shards to try next: if all failed, they are
/// offline and the targets are selected anew, without those that were tried.
pub open spec fn failures_marked(
    c: store::ClusterState,
    placed: Seq<usize>,
    failed: Seq<usize>,
    tried: Seq<usize>,
    hash: u32,
    now: Timestamp,
) -> (store::ClusterState, Seq<usize>) {
    if placed.len() == 0 && failed.len() > 0 {
        let after = taken_offline(c, failed, now);
        (after, ids::minus(placement::targets(after.shards, after.rf, hash), tried))
    } else {
        (all_degraded(c, failed, now), Seq::empty())
    }
}

/// What marking health never changes.
pub open spec fn same_but_health(a: store::ClusterState, b: store::ClusterState) -> bool {
    b == (store::ClusterState { shards: b.shards, ..a }) && a.shards.len() == b.shards.len()
        && forall|i: int|
        0 <= i < a.shards.len() ==> (#[trigger] b.shards[i]).id == a.shards[i].id
}

pub proof fn lemma_taken_offline(c: store::ClusterState, failed: Seq<usize>, now: Timestamp)
    ensures
        same_but_health(c, taken_offline(c, failed, now)),
        store::valid(c) ==> store::valid(taken_offline(c, failed, now)),
    decreases failed.len(),
{
    if failed.len() > 0 {
        lemma_taken_offline(
            store::health_set(c, failed[0], ShardHealth::Offline, now),
            failed.drop_first(),
            now,
        );
    }
}

pub proof fn lemma_all_degraded(c: store::ClusterState, failed: Seq<usize>, now: Timestamp)
    ensures
        same_but_health(c, all_degraded(c, failed, now)),
        store::valid(c) ==> store::valid(all_degraded(c, failed, now)),
    decreases failed.len(),
{
    if failed.len() > 0 {
        lemma_all_degraded(degraded(c, failed[0], now), failed.drop_first(), now);
    }
}

impl ShardedObjectStore {
    /// Takes shards to be offline.
    pub fn take_offline(&mut self, failed: &[ShardId], now: Timestamp)
        ensures
            final(self)@ == taken_offline(old(self)@, failed@, now),
            store::valid(old(self)@) ==> store::valid(final(self)@),
    {
        let mut i: usize = 0;
        assert(failed@.skip(0) =~= failed@);
        while i < failed.len()
            invariant
                i <= failed.len(),
                taken_offline(self@, failed@.skip(i as int), now) == taken_offline(
                    old(self)@,
                    failed@,
                    now,
                ),
            decreases failed.len() - i,
        {
            assert(failed@.skip(i as int)[0] == failed@[i as int]);
            assert(failed@.skip(i as int).drop_first() =~= failed@.skip(i + 1));
            self.set_shard_health_at(failed[i], ShardHealth::Offline, now);
            i = i + 1;
        }
        assert(failed@.skip(i as int) =~= Seq::<usize>::empty());
        proof {
            lemma_taken_offline(old(self)@, failed@, now);
        }
    }

    /// Takes shards to be degraded, those that were healthy.
    fn degrade(&mut self, failed: &[ShardId], now: Timestamp)
        ensures
            final(self)@ == all_degraded(old(self)@, failed@, now),
            store::valid(old(self)@) ==> store::valid(final(self)@),
    {
        let mut i: usize = 0;
        assert(failed@.skip(0) =~= failed@);
        while i < failed.len()
            invariant
                i <= failed.len(),
                all_degraded(self@, failed@.skip(i as int), now) == all_degraded(
                    old(self)@,
                    failed@,
                    now,
                ),
            decreases failed.len() - i,
        {
            assert(failed@.skip(i as int)[0] == failed@[i as int]);
            assert(failed@.skip(i as int).drop_first() =~= failed@.skip(i + 1));
            let healthy = match self.shard_health(failed[i]) {
                Some(h) => h == ShardHealth::Healthy,
                None => false,
            };
            if healthy {
                self.set_shard_health_at(failed[i], ShardHealth::Degraded, now);
            }
            i = i + 1;
        }
        assert(failed@.skip(i as int) =~= Seq::<usize>::empty());
        proof {
            lemma_all_degraded(old(self)@, failed@, now);
        }
    }

    /// Marks the health of shards after a write, given the hash of the key. The
    /// shards to try next, if all that were asked have failed.
    pub fn mark_write_failures_for_hash(
        &mut self,
        placed: &[ShardId],
        failed: &[ShardId],
        tried: &[ShardId],
        hash: u32,
        now: Timestamp,
    ) -> (retry: Vec<ShardId>)
        ensures
            (final(self)@, retry@) == failures_marked(
                old(self)@,
                placed@,
                failed@,
                tried@,
                hash,
                now,
            ),
            store::valid(old(self)@) ==> store::valid(final(self)@),
    {
        if placed.len() == 0 && failed.len() > 0 {
            self.take_offline(failed, now);
            let fresh = self.targets_for_hash(hash);
            drop_ids(fresh.as_slice(), tried)
        } else {
            self.degrade(failed, now);
            let none: Vec<ShardId> = Vec::new();
            assert(none@ =~= Seq::<usize>::empty());
            none
        }
    }

    /// Marks the health of shards after a write. The shards to try next, if all that
    /// were asked have failed.
    pub fn mark_write_failures(
        &mut self,
        placed: &[ShardId],
        failed: &[ShardId],
        tried: &[ShardId],
        key: &str,
        now: Timestamp,
    ) -> (retry: Vec<ShardId>)
        ensures
            (final(self)@, retry@) == failures_marked(
                old(self)@,
                placed@,
                failed@,
                tried@,
                placement::key_hash(key@),
                now,
            ),
            store::valid(old(self)@) ==> store::valid(final(self)@),
    {
        let hash: u32 = crc32c(key.as_bytes());
        self.mark_write_failures_for_hash(placed, failed, tried, hash, now)
    }
}

// -- One write --------------------------------------------------------------

/// A write in progress.
pub struct WriteState {
    pub key: Seq<char>,
    /// The shards that were meant first.
    pub targets: Seq<usize>,
    /// The shards that are being written to.
    pub asked: Seq<usize>,
    pub min_required: nat,
    pub cleanup_on_fail: bool,
    /// Whether this is the second try.
    pub retried: bool,
    pub placed: Seq<usize>,
    pub errors: Seq<Seq<char>>,
}

/// What comes next in a write.
pub enum StepSpec {
    Write(Seq<usize>),
    Done(Seq<usize>),
    Fail { error: error::ErrorSpec, cleanup: Seq<usize> },
}

/// What comes next in a write.
#[derive(Debug)]
pub enum WriteStep {
    /// Write to these shards, and report what each of them answers.
    Write(Vec<ShardId>),
    /// The write succeeded on these shards.
    Done(Vec<ShardId>),
    /// The write failed. Delete what it left on the `cleanup` shards.
    Fail { error: ShardError, cleanup: Vec<ShardId> },
}

impl View for WriteStep {
    type V = StepSpec;

    open spec fn view(&self) -> StepSpec {
        match *self {
            WriteStep::Write(ids) => StepSpec::Write(ids@),
            WriteStep::Done(ids) => StepSpec::Done(ids@),
            WriteStep::Fail { error, cleanup } => StepSpec::Fail {
                error: error@,
                cleanup: cleanup@,
            },
        }
    }
}

/// The shards that exist, of some.
pub open spec fn existing(n: nat, ids: Seq<usize>) -> Seq<usize> {
    ids.filter(|id: usize| id < n)
}

/// A write that begins.
pub open spec fn write_begun(
    c: store::ClusterState,
    key: Seq<char>,
    targets: Seq<usize>,
    min_required: nat,
    cleanup_on_fail: bool,
) -> WriteState {
    WriteState {
        key,
        targets,
        asked: existing(c.shards.len(), targets),
        min_required,
        cleanup_on_fail,
        retried: false,
        placed: Seq::empty(),
        errors: Seq::empty(),
    }
}

/// The shards from which to delete what a failed write has left: those that took it,
/// unless the object was there before. Then they hold the only copy of it.
pub open spec fn orphans(c: store::ClusterState, key: Seq<char>, placed: Seq<usize>) -> Seq<usize> {
    if c.entries.contains_key(key) {
        Seq::empty()
    } else {
        existing(c.shards.len(), placed)
    }
}

/// The end of a write: enough shards have taken it or not.
pub open spec fn judged(c: store::ClusterState, w: WriteState) -> StepSpec {
    if w.placed.len() < w.min_required {
        StepSpec::Fail {
            error: error::ErrorSpec::InsufficientWrites {
                path: w.key,
                required: w.min_required,
                actual: w.placed.len(),
                errors: w.errors,
            },
            cleanup: if w.cleanup_on_fail {
                orphans(c, w.key, w.placed)
            } else {
                Seq::empty()
            },
        }
    } else {
        StepSpec::Done(w.placed)
    }
}

/// The end of a write that no shard has taken.
pub open spec fn nowhere(w: WriteState) -> StepSpec {
    StepSpec::Fail {
        error: error::ErrorSpec::AllReplicasFailed { path: w.key, errors: w.errors },
        cleanup: Seq::empty(),
    }
}

/// A write after the shards that were asked have answered.
pub open spec fn write_answered(w: WriteState, results: Seq<Option<Seq<char>>>) -> WriteState {
    WriteState {
        placed: w.placed + successes(w.asked, results),
        errors: w.errors + messages(w.asked, results, infix(w.retried)),
        ..w
    }
}

/// The cluster, the write and what comes next, after the shards that were asked have
/// answered.
pub open spec fn write_reported(
    c: store::ClusterState,
    w: WriteState,
    results: Seq<Option<Seq<char>>>,
    hash: u32,
    now: Timestamp,
) -> (store::ClusterState, WriteState, StepSpec) {
    let answered = write_answered(w, results);
    if w.retried {
        if answered.placed.len() == 0 {
            (c, answered, nowhere(answered))
        } else {
            (c, answered, judged(c, answered))
        }
    } else {
        let failed = failures(w.asked, results);
        let (after, retry) = failures_marked(c, answered.placed, failed, w.targets, hash, now);
        if answered.placed.len() == 0 && failed.len() > 0 {
            if retry.len() == 0 {
                (after, answered, nowhere(answered))
            } else {
                (
                    after,
                    WriteState { asked: retry, retried: true, ..answered },
                    StepSpec::Write(retry),
                )
            }
        } else {
            (after, answered, judged(after, answered))
        }
    }
}

/// A write in progress.
#[derive(Debug)]
pub struct WriteJob {
    key: String,
    targets: Vec<ShardId>,
    asked: Vec<ShardId>,
    min_required: usize,
    cleanup_on_fail: bool,
    retried: bool,
    placed: Vec<ShardId>,
    errors: Vec<String>,
}

impl View for WriteJob {
    type V = WriteState;

    closed spec fn view(&self) -> WriteState {
        WriteState {
            key: self.key@,
            targets: self.targets@,
            asked: self.asked@,
            min_required: self.min_required as nat,
            cleanup_on_fail: self.cleanup_on_fail,
            retried: self.retried,
            placed: self.placed@,
            errors: text::views(self.errors@),
        }
    }
}

/// The shards that exist, of some.
pub(crate) fn keep_existing(n: usize, wanted: &[ShardId]) -> (r: Vec<ShardId>)
    ensures
        r@ == existing(n as nat, wanted@),
{
    let ghost pred = |id: usize| id < n as nat;
    let mut r: Vec<ShardId> = Vec::new();
    let mut i: usize = 0;
    proof {
        placement::lemma_filter_none(wanted@, pred);
    }
    while i < wanted.len()
        invariant
            i <= wanted.len(),
            pred == (|id: usize| id < n as nat),
            r@ == wanted@.take(i as int).filter(pred),
        decreases wanted.len() - i,
    {
        proof {
            placement::lemma_filter_step(wanted@, i as int, pred);
        }
        if wanted[i] < n {
            r.push(wanted[i]);
        }
        i = i + 1;
    }
    assert(wanted@.take(i as int) =~= wanted@);
    r
}

fn append_ids(to: &mut Vec<ShardId>, more: &Vec<ShardId>)
    ensures
        final(to)@ == old(to)@ + more@,
{
    to.extend_from_slice(more.as_slice());
    assert(to@ =~= old(to)@ + more@);
}

fn append_strings(to: &mut Vec<String>, more: Vec<String>)
    ensures
        text::views(final(to)@) == text::views(old(to)@) + text::views(more@),
{
    let mut more = more;
    let ghost added = more@;
    to.append(&mut more);
    assert(text::views(to@) =~= text::views(old(to)@) + text::views(added));
}

fn copy_strings(v: &Vec<String>) -> (r: Vec<String>)
    ensures
        text::views(r@) == text::views(v@),
{
    let mut r: Vec<String> = Vec::new();
    let mut i: usize = 0;
    assert(text::views(r@) =~= text::views(v@).take(0));
    while i < v.len()
        invariant
            i <= v.len(),
            text::views(r@) == text::views(v@).take(i as int),
        decreases v.len() - i,
    {
        let ghost before = r@;
        r.push(v[i].clone());
        assert(text::views(r@) =~= text::views(before).push(v@[i as int]@));
        assert(text::views(r@) =~= text::views(v@).take(i + 1));
        i = i + 1;
    }
    assert(text::views(v@).take(i as int) =~= text::views(v@));
    r
}

impl WriteJob {
    /// Begins a write of an object to some shards. It succeeds if at least
    /// `min_required` of them take it.
    pub fn begin(
        store: &ShardedObjectStore,
        key: &str,
        targets: &[ShardId],
        min_required: usize,
        cleanup_on_fail: bool,
    ) -> (w: WriteJob)
        ensures
            w@ == write_begun(store@, key@, targets@, min_required as nat, cleanup_on_fail),
    {
        let w = WriteJob {
            key: key.to_owned(),
            targets: copy_ids(targets),
            asked: keep_existing(store.shard_count(), targets),
            min_required,
            cleanup_on_fail,
            retried: false,
            placed: Vec::new(),
            errors: Vec::new(),
        };
        assert(w@.errors =~= Seq::<Seq<char>>::empty());
        w
    }

    /// What is written.
    pub fn key(&self) -> (r: &str)
        ensures
            r@ == self@.key,
    {
        self.key.as_str()
    }

    /// The shards to write to.
    pub fn asked(&self) -> (r: &Vec<ShardId>)
        ensures
            r@ == self@.asked,
    {
        &self.asked
    }

    fn judge(&self, store: &ShardedObjectStore) -> (step: WriteStep)
        ensures
            step@ == judged(store@, self@),
    {
        if self.placed.len() < self.min_required {
            let mut cleanup: Vec<ShardId> = Vec::new();
            assert(cleanup@ =~= Seq::<usize>::empty());
            if self.cleanup_on_fail && !store.catalog().contains(self.key.as_str()) {
                cleanup = keep_existing(store.shard_count(), self.placed.as_slice());
            }
            WriteStep::Fail {
                error: ShardError::InsufficientWrites {
                    path: self.key.clone(),
                    required: self.min_required,
                    actual: self.placed.len(),
                    errors: copy_strings(&self.errors),
                },
                cleanup,
            }
        } else {
            WriteStep::Done(copy_ids(self.placed.as_slice()))
        }
    }

    fn fail_everywhere(&self) -> (step: WriteStep)
        ensures
            step@ == nowhere(self@),
    {
        let cleanup: Vec<ShardId> = Vec::new();
        assert(cleanup@ =~= Seq::<usize>::empty());
        WriteStep::Fail {
            error: ShardError::AllReplicasFailed {
                path: self.key.clone(),
                errors: copy_strings(&self.errors),
            },
            cleanup,
        }
    }

    /// Takes what the shards that were asked have answered, in that order, given the
    /// hash of the key: nothing for a success, or an error in words.
    pub fn report_for_hash(
        &mut self,
        store: &mut ShardedObjectStore,
        results: &Vec<Option<String>>,
        hash: u32,
        now: Timestamp,
    ) -> (step: WriteStep)
        requires
            results.len() == old(self)@.asked.len(),
        ensures
            (final(store)@, final(self)@, step@) == write_reported(
                old(store)@,
                old(self)@,
                answers(results@),
                hash,
                now,
            ),
            store::valid(old(store)@) ==> store::valid(final(store)@),
    {
        let between = if self.retried {
            " (retry): "
        } else {
            ": "
        };
        let (ok, failed, messages) = sort_answers(&self.asked, results, between);
        append_ids(&mut self.placed, &ok);
        append_strings(&mut self.errors, messages);
        assert(self@ == write_answered(old(self)@, answers(results@)));
        if self.retried {
            if self.placed.len() == 0 {
                self.fail_everywhere()
            } else {
                self.judge(store)
            }
        } else {
            let retry = store.mark_write_failures_for_hash(
                self.placed.as_slice(),
                failed.as_slice(),
                self.targets.as_slice(),
                hash,
                now,
            );
            if self.placed.len() == 0 && failed.len() > 0 {
                if retry.len() == 0 {
                    self.fail_everywhere()
                } else {
                    self.asked = copy_ids(retry.as_slice());
                    self.retried = true;
                    WriteStep::Write(retry)
                }
            } else {
                self.judge(store)
            }
        }
    }

    /// Takes what the shards that were asked have answered, in that order: nothing
    /// for a success, or an error in words.
    pub fn report(
        &mut self,
        store: &mut ShardedObjectStore,
        results: &Vec<Option<String>>,
        now: Timestamp,
    ) -> (step: WriteStep)
        requires
            results.len() == old(self)@.asked.len(),
        ensures
            (final(store)@, final(self)@, step@) == write_reported(
                old(store)@,
                old(self)@,
                answers(results@),
                placement::key_hash(old(self)@.key),
                now,
            ),
            store::valid(old(store)@) ==> store::valid(final(store)@),
    {
        let hash: u32 = crc32c(self.key.as_str().as_bytes());
        self.report_for_hash(store, results, hash, now)
    }
}

// -- Laws of a write --------------------------------------------------------

/// A write that succeeds has been taken by as many shards as it needs, each of which
/// has answered so.
pub proof fn a_write_succeeds_only_on_enough_shards(
    c: store::ClusterState,
    w: WriteState,
    results: Seq<Option<Seq<char>>>,
    hash: u32,
    now: Timestamp,
)
    ensures
        write_reported(c, w, results, hash, now).2 matches StepSpec::Done(placed)
            ==> placed.len() >= w.min_required && placed == w.placed + successes(w.asked, results),
{
}

/// A write asks shards a second time at most.
pub proof fn a_write_is_retried_at_most_once(
    c: store::ClusterState,
    w: WriteState,
    results: Seq<Option<Seq<char>>>,
    hash: u32,
    now: Timestamp,
)
    ensures
        write_reported(c, w, results, hash, now).2 is Write ==> !w.retried && write_reported(
            c,
            w,
            results,
            hash,
            now,
        ).1.retried,
{
}

/// A shard that was tried is not tried again, and the catalog is not touched.
pub proof fn a_retry_goes_to_other_shards(
    c: store::ClusterState,
    w: WriteState,
    results: Seq<Option<Seq<char>>>,
    hash: u32,
    now: Timestamp,
)
    ensures
        write_reported(c, w, results, hash, now).2 matches StepSpec::Write(ids) ==> forall|i: int|
            0 <= i < ids.len() ==> !w.targets.contains(#[trigger] ids[i]),
        write_reported(c, w, results, hash, now).0.entries == c.entries,
        write_reported(c, w, results, hash, now).0.shards.len() == c.shards.len(),
{
    let failed = failures(w.asked, results);
    let answered = write_answered(w, results);
    lemma_taken_offline(c, failed, now);
    lemma_all_degraded(c, failed, now);
    let after = taken_offline(c, failed, now);
    let fresh = placement::targets(after.shards, after.rf, hash);
    let pred = |x: usize| !w.targets.contains(x);
    assert forall|i: int| 0 <= i < fresh.filter(pred).len() implies !w.targets.contains(
        #[trigger] fresh.filter(pred)[i],
    ) by {
        fresh.lemma_filter_pred(pred, i);
    }
}

/// Whether a shard was asked, and has answered so.
pub open spec fn answered_with(
    asked: Seq<usize>,
    results: Seq<Option<Seq<char>>>,
    id: usize,
    success: bool,
) -> bool {
    exists|i: int|
        0 <= i < asked.len() && (#[trigger] asked[i]) == id && (results[i] is None <==> success)
}

/// The number of shards that have succeeded.
pub open spec fn tally_of(results: Seq<Option<Seq<char>>>) -> nat {
    results.filter(|r: Option<Seq<char>>| r is None).len()
}

proof fn lemma_answered_push(
    asked: Seq<usize>,
    results: Seq<Option<Seq<char>>>,
    id: usize,
    success: bool,
)
    requires
        asked.len() == results.len(),
        asked.len() > 0,
    ensures
        answered_with(asked, results, id, success) <==> answered_with(
            asked.drop_last(),
            results.drop_last(),
            id,
            success,
        ) || (asked.last() == id && (results.last() is None <==> success)),
{
    let n = asked.len() - 1;
    if answered_with(asked.drop_last(), results.drop_last(), id, success) {
        let i = choose|i: int|
            0 <= i < n && (#[trigger] asked.drop_last()[i]) == id && (results.drop_last()[i] is None
                <==> success);
        assert(asked[i] == id);
    }
    if answered_with(asked, results, id, success) {
        let i = choose|i: int|
            0 <= i < asked.len() && (#[trigger] asked[i]) == id && (results[i] is None <==> success);
        if i < n {
            assert(asked.drop_last()[i] == id);
        }
    }
    if asked.last() == id && (results.last() is None <==> success) {
        assert(asked[n] == id);
    }
}

/// The shards that succeeded are those that have answered so, and the shards that failed
/// are the others. None is lost or counted twice.
pub proof fn answers_part_the_shards(asked: Seq<usize>, results: Seq<Option<Seq<char>>>)
    requires
        asked.len() == results.len(),
    ensures
        forall|id: usize| #[trigger]
            successes(asked, results).contains(id) <==> answered_with(asked, results, id, true),
        forall|id: usize| #[trigger]
            failures(asked, results).contains(id) <==> answered_with(asked, results, id, false),
        successes(asked, results).len() == tally_of(results),
        successes(asked, results).len() + failures(asked, results).len() == asked.len(),
    decreases asked.len(),
{
    reveal(Seq::filter);
    if asked.len() > 0 {
        let a = asked.drop_last();
        let r = results.drop_last();
        answers_part_the_shards(a, r);
        let s = successes(a, r);
        let f = failures(a, r);
        assert forall|id: usize| #[trigger]
            successes(asked, results).contains(id) <==> answered_with(asked, results, id, true) by {
            lemma_answered_push(asked, results, id, true);
            lemma_pushed(s, asked.last(), id);
        }
        assert forall|id: usize| #[trigger]
            failures(asked, results).contains(id) <==> answered_with(asked, results, id, false) by {
            lemma_answered_push(asked, results, id, false);
            lemma_pushed(f, asked.last(), id);
        }
    }
}

pub proof fn lemma_pushed(s: Seq<usize>, x: usize, id: usize)
    ensures
        s.push(x).contains(id) <==> s.contains(id) || x == id,
{
    if s.contains(id) {
        let i = s.index_of(id);
        assert(s.push(x)[i] == id);
    }
    assert(s.push(x)[s.len() as int] == x);
    if s.push(x).contains(id) {
        let i = s.push(x).index_of(id);
        if i < s.len() {
            assert(s[i] == id);
        }
    }
}

/// A shard of a cluster whose health has changed, all else being equal.
pub open spec fn only_health(a: store::ShardInfo, b: store::ShardInfo, health: ShardHealth) -> bool {
    &&& b.health == health
    &&& b.id == a.id
    &&& b.free_space == a.free_space
    &&& b.crc_error_count == a.crc_error_count
    &&& b.detach_reason == a.detach_reason
    &&& b.suppress_replication == a.suppress_replication
}

pub proof fn lemma_offline_shards(c: store::ClusterState, failed: Seq<usize>, now: Timestamp)
    requires
        c.shards.len() <= usize::MAX,
    ensures
        taken_offline(c, failed, now).shards.len() == c.shards.len(),
        forall|i: int|
            0 <= i < c.shards.len() ==> ({
                let s = #[trigger] taken_offline(c, failed, now).shards[i];
                if failed.contains(i as usize) {
                    only_health(c.shards[i], s, ShardHealth::Offline)
                } else {
                    s == c.shards[i]
                }
            }),
    decreases failed.len(),
{
    if failed.len() > 0 {
        let next = store::health_set(c, failed[0], ShardHealth::Offline, now);
        let rest = failed.drop_first();
        lemma_offline_shards(next, rest, now);
        assert forall|i: int| 0 <= i < c.shards.len() implies ({
            let s = #[trigger] taken_offline(c, failed, now).shards[i];
            if failed.contains(i as usize) {
                only_health(c.shards[i], s, ShardHealth::Offline)
            } else {
                s == c.shards[i]
            }
        }) by {
            lemma_first(failed, i as usize);
            assert(taken_offline(next, rest, now).shards[i] == taken_offline(c, failed, now).shards[i]);
        }
    }
}

proof fn lemma_first(s: Seq<usize>, id: usize)
    requires
        s.len() > 0,
    ensures
        s.contains(id) <==> s[0] == id || s.drop_first().contains(id),
{
    if s.contains(id) {
        let i = s.index_of(id);
        if i > 0 {
            assert(s.drop_first()[i - 1] == id);
        }
    }
    if s.drop_first().contains(id) {
        let i = s.drop_first().index_of(id);
        assert(s[i + 1] == id);
    }
}

proof fn lemma_degraded_shards(c: store::ClusterState, failed: Seq<usize>, now: Timestamp)
    requires
        c.shards.len() <= usize::MAX,
    ensures
        all_degraded(c, failed, now).shards.len() == c.shards.len(),
        forall|i: int|
            0 <= i < c.shards.len() ==> ({
                let s = #[trigger] all_degraded(c, failed, now).shards[i];
                if failed.contains(i as usize) && c.shards[i].health == ShardHealth::Healthy {
                    only_health(c.shards[i], s, ShardHealth::Degraded)
                } else {
                    s == c.shards[i]
                }
            }),
    decreases failed.len(),
{
    if failed.len() > 0 {
        let next = degraded(c, failed[0], now);
        let rest = failed.drop_first();
        lemma_degraded_shards(next, rest, now);
        assert forall|i: int| 0 <= i < c.shards.len() implies ({
            let s = #[trigger] all_degraded(c, failed, now).shards[i];
            if failed.contains(i as usize) && c.shards[i].health == ShardHealth::Healthy {
                only_health(c.shards[i], s, ShardHealth::Degraded)
            } else {
                s == c.shards[i]
            }
        }) by {
            lemma_first(failed, i as usize);
            assert(all_degraded(next, rest, now).shards[i] == all_degraded(c, failed, now).shards[i]);
        }
    }
}

/// What the first answers say of the shards that were asked. If at least one has taken
/// the write, one that has not is at most degraded. If none has, all of them are
/// offline. Nothing else is known of any shard than before, nor changes anything else of
/// the cluster, and second answers change nothing at all.
pub proof fn a_failed_write_is_held_against_its_shards(
    c: store::ClusterState,
    w: WriteState,
    results: Seq<Option<Seq<char>>>,
    hash: u32,
    now: Timestamp,
)
    requires
        c.shards.len() <= usize::MAX,
        w.asked.len() == results.len(),
        w.placed.len() == 0,
    ensures
        ({
            let after = write_reported(c, w, results, hash, now).0;
            &&& w.retried ==> after == c
            &&& after == (store::ClusterState { shards: after.shards, ..c })
            &&& after.shards.len() == c.shards.len()
            &&& !w.retried ==> forall|i: int|
                0 <= i < c.shards.len() ==> ({
                    let s = #[trigger] after.shards[i];
                    let failed = answered_with(w.asked, results, i as usize, false);
                    if failed && tally_of(results) == 0 {
                        only_health(c.shards[i], s, ShardHealth::Offline)
                    } else if failed && c.shards[i].health == ShardHealth::Healthy {
                        only_health(c.shards[i], s, ShardHealth::Degraded)
                    } else {
                        s == c.shards[i]
                    }
                })
        }),
{
    let failed = failures(w.asked, results);
    answers_part_the_shards(w.asked, results);
    assert(write_answered(w, results).placed =~= successes(w.asked, results));
    lemma_taken_offline(c, failed, now);
    lemma_all_degraded(c, failed, now);
    lemma_offline_shards(c, failed, now);
    lemma_degraded_shards(c, failed, now);
    if failed.len() == 0 {
        assert forall|id: usize| !failed.contains(id) by {}
    }
}

/// A write that at least one shard has taken ends with the answers, and is judged by
/// how many have: it succeeds on those if they are enough. If they are too few it fails,
/// and what they took is deleted again exactly where that is wanted and the catalog
/// does not have the object.
pub proof fn a_write_is_judged_by_how_many_took_it(
    c: store::ClusterState,
    w: WriteState,
    results: Seq<Option<Seq<char>>>,
    hash: u32,
    now: Timestamp,
)
    requires
        w.asked.len() == results.len(),
        w.placed.len() == 0,
        tally_of(results) > 0,
    ensures
        ({
            let step = write_reported(c, w, results, hash, now).2;
            &&& tally_of(results) >= w.min_required ==> (step matches StepSpec::Done(placed)
                && placed.len() == tally_of(results) && forall|id: usize| #[trigger]
                placed.contains(id) <==> answered_with(w.asked, results, id, true))
            &&& tally_of(results) < w.min_required ==> (step matches StepSpec::Fail {
                error,
                cleanup,
            } && (error matches error::ErrorSpec::InsufficientWrites {
                path,
                required,
                actual,
                ..
            } && path == w.key && required == w.min_required && actual == tally_of(results)) && (
            forall|id: usize| #[trigger]
                cleanup.contains(id) <==> w.cleanup_on_fail && !c.entries.contains_key(w.key) && id
                    < c.shards.len() && answered_with(w.asked, results, id, true)))
        }),
{
    answers_part_the_shards(w.asked, results);
    let placed = successes(w.asked, results);
    assert(write_answered(w, results).placed =~= placed);
    let failed = failures(w.asked, results);
    lemma_all_degraded(c, failed, now);
    let n = c.shards.len();
    let pred = |id: usize| id < n;
    assert forall|id: usize| #[trigger] existing(n, placed).contains(id) <==> id < n
        && placed.contains(id) by {
        lemma_kept(placed, pred, id);
    }
    assert forall|id: usize| !(#[trigger] Seq::<usize>::empty().contains(id)) by {}
}

pub proof fn lemma_kept(s: Seq<usize>, pred: spec_fn(usize) -> bool, id: usize)
    ensures
        s.filter(pred).contains(id) <==> s.contains(id) && pred(id),
{
    let f = s.filter(pred);
    if f.contains(id) {
        let i = f.index_of(id);
        s.lemma_filter_pred(pred, i);
        s.lemma_filter_contains_rev(pred, id);
    }
    if s.contains(id) && pred(id) {
        s.lemma_filter_contains(pred, s.index_of(id));
    }
}

/// A write that no shard has taken is tried once more if any shard that was not meant at
/// first takes writes, on such shards alone. Otherwise, or at the second time, it fails
/// on all of them, and there is nothing to delete.
pub proof fn a_write_that_no_shard_took_is_tried_elsewhere(
    c: store::ClusterState,
    w: WriteState,
    results: Seq<Option<Seq<char>>>,
    hash: u32,
    now: Timestamp,
)
    requires
        c.shards.len() <= usize::MAX,
        c.rf >= 1,
        w.asked.len() == results.len(),
        w.asked.len() > 0,
        forall|id: usize| #[trigger] w.asked.contains(id) <==> w.targets.contains(id) && id
            < c.shards.len(),
        w.placed.len() == 0,
        tally_of(results) == 0,
    ensures
        ({
            let (after, next, step) = write_reported(c, w, results, hash, now);
            let other = |id: usize|
                id < c.shards.len() && !w.targets.contains(id)
                    && c.shards[id as int].health.writable();
            let elsewhere = exists|id: usize| #[trigger] other(id);
            &&& !w.retried && elsewhere ==> (step matches StepSpec::Write(ids) && ids.len() > 0
                && next.asked == ids && next.retried && next.min_required == w.min_required
                && next.key == w.key && next.placed.len() == 0 && forall|i: int|
                0 <= i < ids.len() ==> other(#[trigger] ids[i]))
            &&& w.retried || !elsewhere ==> (step matches StepSpec::Fail { error, cleanup }
                && (error matches error::ErrorSpec::AllReplicasFailed { path, .. } && path == w.key)
                && cleanup.len() == 0)
        }),
{
    answers_part_the_shards(w.asked, results);
    let placed = successes(w.asked, results);
    assert(write_answered(w, results).placed =~= placed);
    let failed = failures(w.asked, results);
    let other = |id: usize|
        id < c.shards.len() && !w.targets.contains(id) && c.shards[id as int].health.writable();
    if !w.retried {
        lemma_taken_offline(c, failed, now);
        lemma_offline_shards(c, failed, now);
        let after = taken_offline(c, failed, now);
        let fresh = placement::targets(after.shards, after.rf, hash);
        let untried = |x: usize| !w.targets.contains(x);
        let retry = fresh.filter(untried);
        assert(retry == ids::minus(fresh, w.targets));
        placement::targets_are_distinct_writable_shards(after.shards, after.rf, hash);
        assert forall|id: usize| id < c.shards.len() && w.targets.contains(id) implies after.shards[id as int].health
            == ShardHealth::Offline by {
            assert(w.asked.contains(id));
            let i = w.asked.index_of(id);
            assert(w.asked[i] == id);
            if results[i] is None {
                assert(answered_with(w.asked, results, id, true));
                assert(placed.contains(id));
            }
            assert(answered_with(w.asked, results, id, false));
            assert(failed.contains(id));
            assert(after.shards[id as int] == after.shards[id as int]);
        }
        assert forall|i: int| 0 <= i < retry.len() implies other(#[trigger] retry[i]) by {
            assert(retry.contains(retry[i]));
            lemma_kept(fresh, untried, retry[i]);
            let k = fresh.index_of(retry[i]);
            assert(placement::takes_writes(after.shards, fresh[k]));
            let s = after.shards[retry[i] as int];
            assert(s.health.writable());
        }
        if exists|id: usize| #[trigger] other(id) {
            let id = choose|id: usize| #[trigger] other(id);
            assert(!failed.contains(id)) by {
                if failed.contains(id) {
                    assert(answered_with(w.asked, results, id, false));
                    let i = choose|i: int|
                        0 <= i < w.asked.len() && (#[trigger] w.asked[i]) == id;
                    assert(w.asked.contains(id));
                }
            }
            let s = after.shards[id as int];
            assert(s == c.shards[id as int]);
            assert(placement::takes_writes(after.shards, id));
            let all = placement::all_ids(after.shards.len());
            let pred = |id: usize| placement::takes_writes(after.shards, id);
            assert(all[id as int] == id);
            lemma_kept(all, pred, id);
            assert(placement::writable_of(after.shards, all).contains(id));
            assert(fresh.len() > 0);
            assert(fresh[0] == fresh[0]);
            assert(placement::takes_writes(after.shards, fresh[0]));
            assert(!w.targets.contains(fresh[0]));
            assert(fresh.contains(fresh[0]));
            lemma_kept(fresh, untried, fresh[0]);
            assert(retry.len() > 0);
        } else {
            if retry.len() > 0 {
                assert(other(retry[0]));
            }
        }
    }
}

/// A write begins with its targets, of which those are asked that are there, and with
/// nothing done.
pub proof fn a_write_begins_with_nothing_done(
    c: store::ClusterState,
    key: Seq<char>,
    targets: Seq<usize>,
    min_required: nat,
    cleanup_on_fail: bool,
    id: usize,
)
    ensures
        ({
            let w = write_begun(c, key, targets, min_required, cleanup_on_fail);
            &&& w.key == key && w.targets == targets && w.min_required == min_required
            &&& w.cleanup_on_fail == cleanup_on_fail
            &&& !w.retried && w.placed.len() == 0 && w.errors.len() == 0
            &&& w.asked.contains(id) <==> targets.contains(id) && id < c.shards.len()
        }),
{
    lemma_existing(c.shards.len(), targets, id);
}

proof fn lemma_existing(n: nat, list: Seq<usize>, id: usize)
    ensures
        existing(n, list).contains(id) <==> list.contains(id) && id < n,
    decreases list.len(),
{
    reveal(Seq::filter);
    if list.len() > 0 {
        let head = list.drop_last();
        lemma_existing(n, head, id);
        let r = existing(n, list);
        let h = existing(n, head);
        if list.contains(id) && id < n {
            let i = list.index_of(id);
            if i < head.len() {
                assert(head[i] == id);
                let j = h.index_of(id);
                assert(r[j] == id);
            } else {
                assert(r[r.len() - 1] == id);
            }
        }
        if r.contains(id) {
            let j = r.index_of(id);
            if j < h.len() {
                assert(h[j] == id);
                let i = head.index_of(id);
                assert(list[i] == id);
            } else {
                assert(list[list.len() - 1] == id);
            }
        }
    }
}

/// An error of a shard names the shard and says what was wrong, and whether that was the
/// second try. There is one for each shard that did not take the write, in their order.
pub proof fn each_failure_has_a_message(
    asked: Seq<usize>,
    results: Seq<Option<Seq<char>>>,
    retried: bool,
    id: usize,
    e: Seq<char>,
)
    requires
        asked.len() == results.len(),
    ensures
        infix(true) == " (retry): "@,
        infix(false) == ": "@,
        messages(Seq::empty(), Seq::empty(), infix(retried)).len() == 0,
        messages(asked.push(id), results.push(Some(e)), infix(retried)) == messages(
            asked,
            results,
            infix(retried),
        ).push("shard "@ + text::decimal(id as nat) + infix(retried) + e),
        messages(asked.push(id), results.push(None), infix(retried)) == messages(
            asked,
            results,
            infix(retried),
        ),
{
    assert(asked.push(id).drop_last() =~= asked);
    assert(results.push(Some(e)).drop_last() =~= results);
    assert(results.push(None).drop_last() =~= results);
}

} // verus!
