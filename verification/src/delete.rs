//! Deleting an object from all shards that hold it.

use vstd::prelude::*;
use vstd::string::*;
use crate::catalog;
use crate::ids;
use crate::ids::ShardId;
use crate::markers;
use crate::placement;
use crate::put;
use crate::put::PutMode;
use crate::store;
use crate::store::ShardedObjectStore;
use crate::text;
use crate::writes;

verus! {

/// What a shard has answered to a delete.
#[derive(Debug)]
pub enum DeleteAnswer {
    Deleted,
    NotFound,
    /// It failed, with the error in words.
    Failed(String),
}

/// What a shard has answered to a delete: nothing if the object is gone from it, or
/// the error in words. An object that was not there is gone.
pub open spec fn outcome(a: DeleteAnswer) -> Option<Seq<char>> {
    match a {
        DeleteAnswer::Failed(m) => Some(m@),
        _ => None,
    }
}

/// What shards have answered to a delete.
pub open spec fn outcomes(answers: Seq<DeleteAnswer>) -> Seq<Option<Seq<char>>> {
    Seq::new(answers.len(), |i: int| outcome(answers[i]))
}

/// The last error, if there is one.
pub open spec fn last_error(results: Seq<Option<Seq<char>>>) -> Option<Seq<char>>
    decreases results.len(),
{
    if results.len() == 0 {
        None
    } else if results.last() is Some {
        results.last()
    } else {
        last_error(results.drop_last())
    }
}

/// The shards to delete an object from: those of its catalog entry, or else all of
/// them, as far as they are available.
pub open spec fn delete_targets(c: store::ClusterState, key: Seq<char>) -> Seq<usize> {
    placement::readable_of(
        c.shards,
        if c.entries.contains_key(key) {
            c.entries[key].shards
        } else {
            placement::all_ids(c.shards.len())
        },
    )
}

/// Whether a delete that failed on some shards succeeded all the same: on as many as a
/// put needs if the cluster asks for that, or else on one.
pub open spec fn enough_gone(c: store::ClusterState, n: nat) -> bool {
    if c.delete_requires_min_writes {
        n >= c.min_writes
    } else {
        n > 0
    }
}

/// The cluster after an object was deleted, and the error, if it failed. If it is gone
/// everywhere it leaves the catalog; otherwise the shards that it is gone from leave
/// its entry.
pub open spec fn delete_reported(
    c: store::ClusterState,
    key: Seq<char>,
    asked: Seq<usize>,
    results: Seq<Option<Seq<char>>>,
) -> (store::ClusterState, Result<(), Seq<char>>) {
    let from = writes::successes(asked, results);
    match last_error(results) {
        None => (put::entry_dropped(c, key), Ok(())),
        Some(e) => (
            store::ClusterState {
                entries: catalog::shards_removed(c.entries, key, from),
                dirty: c.dirty || (from.len() > 0 && c.entries.contains_key(key)),
                ..c
            },
            if enough_gone(c, from.len()) {
                Ok(())
            } else {
                Err(e)
            },
        ),
    }
}

/// The outcome of a delete, in the terms of the model.
pub open spec fn end_view(r: Result<(), String>) -> Result<(), Seq<char>> {
    match r {
        Ok(()) => Ok(()),
        Err(e) => Err(e@),
    }
}

/// How a delete begins.
#[derive(Debug, Clone, Copy, PartialEq, Eq, Structural)]
pub enum DeletePlan {
    /// The cluster is read-only.
    ReadOnly,
    /// The key is that of a delete marker: delete it without leaving another.
    Direct,
    /// Write a delete marker in this way, then delete the object if that succeeded. A
    /// delete that succeeded is announced. If it failed the marker stays.
    MarkerFirst(PutMode),
}

/// How a delete begins.
pub open spec fn delete_plan(c: store::ClusterState, key: Seq<char>) -> DeletePlan {
    if c.read_only {
        DeletePlan::ReadOnly
    } else if markers::is_marker(key) {
        DeletePlan::Direct
    } else {
        DeletePlan::MarkerFirst(
            if c.delete_requires_min_writes {
                PutMode::StrictMarker
            } else {
                PutMode::BestEffortMarker
            },
        )
    }
}

/// A delete in progress.
#[derive(Debug)]
pub struct DeleteJob {
    key: String,
    asked: Vec<ShardId>,
}

impl DeleteJob {
    /// What is deleted.
    pub closed spec fn key(&self) -> Seq<char> {
        self.key@
    }

    /// The shards that it is deleted from.
    pub closed spec fn targets(&self) -> Seq<usize> {
        self.asked@
    }

    /// Begins a delete.
    pub fn begin(store: &ShardedObjectStore, key: &str) -> (j: DeleteJob)
        ensures
            j.key() == key@,
            j.targets() == delete_targets(store@, key@),
    {
        let asked = match store.placement(key) {
            Some(e) => store.readable_ids(e.shards.as_slice()),
            None => store.readable_shards(),
        };
        DeleteJob { key: key.to_owned(), asked }
    }

    /// The shards to delete the object from.
    pub fn asked(&self) -> (r: &Vec<ShardId>)
        ensures
            r@ == self.targets(),
    {
        &self.asked
    }

    /// Takes what the shards have answered, in order. The last error, if the delete
    /// failed.
    pub fn report(&self, store: &mut ShardedObjectStore, answers: &Vec<DeleteAnswer>) -> (r: Result<
        (),
        String,
    >)
        requires
            answers.len() == self.targets().len(),
        ensures
            (final(store)@, end_view(r)) == delete_reported(
                old(store)@,
                self.key(),
                self.targets(),
                outcomes(answers@),
            ),
            store::valid(old(store)@) ==> store::valid(final(store)@),
    {
        let ghost c = store@;
        let ghost all = outcomes(answers@);
        let mut from: Vec<ShardId> = Vec::new();
        let mut last: Option<String> = None;
        let mut i: usize = 0;
        while i < answers.len()
            invariant
                i <= answers.len(),
                answers.len() == self.asked.len(),
                all == outcomes(answers@),
                from@ == writes::successes(self.asked@.take(i as int), all.take(i as int)),
                text::opt_view(last) == last_error(all.take(i as int)),
            decreases answers.len() - i,
        {
            proof {
                assert(self.asked@.take(i + 1).drop_last() =~= self.asked@.take(i as int));
                assert(all.take(i + 1).drop_last() =~= all.take(i as int));
                assert(all.take(i + 1).last() == outcome(answers@[i as int]));
            }
            match &answers[i] {
                DeleteAnswer::Failed(m) => {
                    last = Some(m.clone());
                },
                _ => {
                    from.push(self.asked[i]);
                },
            }
            i = i + 1;
        }
        assert(self.asked@.take(i as int) =~= self.asked@);
        assert(all.take(i as int) =~= all);
        match last {
            None => {
                store.catalog_mut().remove(self.key.as_str());
                Ok(())
            },
            Some(e) => {
                store.remove_shards(self.key.as_str(), from.as_slice());
                let enough = if store.delete_requires_min_writes() {
                    from.len() >= store.min_writes()
                } else {
                    from.len() > 0
                };
                if enough {
                    Ok(())
                } else {
                    Err(e)
                }
            },
        }
    }
}

impl ShardedObjectStore {
    /// How to delete an object.
    pub fn delete(&self, key: &str) -> (r: DeletePlan)
        ensures
            r == delete_plan(self@, key@),
    {
        if self.is_read_only() {
            DeletePlan::ReadOnly
        } else if ShardedObjectStore::is_delete_marker(key) {
            DeletePlan::Direct
        } else if self.delete_requires_min_writes() {
            DeletePlan::MarkerFirst(PutMode::StrictMarker)
        } else {
            DeletePlan::MarkerFirst(PutMode::BestEffortMarker)
        }
    }

    /// Takes shards out of the catalog entry of an object, in turn.
    pub(crate) fn remove_shards(&mut self, key: &str, shards: &[ShardId])
        ensures
            final(self)@ == (store::ClusterState {
                entries: catalog::shards_removed(old(self)@.entries, key@, shards@),
                dirty: old(self)@.dirty || (shards@.len() > 0 && old(self)@.entries.contains_key(
                    key@,
                )),
                ..old(self)@
            }),
            store::valid(old(self)@) ==> store::valid(final(self)@),
    {
        let ghost c = self@;
        let mut i: usize = 0;
        assert(shards@.skip(0) =~= shards@);
        while i < shards.len()
            invariant
                i <= shards.len(),
                c == old(self)@,
                catalog::shards_removed(self@.entries, key@, shards@.skip(i as int))
                    == catalog::shards_removed(c.entries, key@, shards@),
                self@ == (store::ClusterState {
                    entries: self@.entries,
                    dirty: c.dirty || (i > 0 && c.entries.contains_key(key@)),
                    ..c
                }),
                i == 0 ==> self@.entries == c.entries,
                !c.entries.contains_key(key@) ==> !self@.entries.contains_key(key@),
                store::valid(c) ==> store::valid(self@),
            decreases shards.len() - i,
        {
            assert(shards@.skip(i as int)[0] == shards@[i as int]);
            assert(shards@.skip(i as int).drop_first() =~= shards@.skip(i + 1));
            self.catalog_mut().remove_shard(key, shards[i]);
            i = i + 1;
        }
        assert(shards@.skip(i as int) =~= Seq::<usize>::empty());
    }
}

// -- Laws -------------------------------------------------------------------

proof fn lemma_last_error(results: Seq<Option<Seq<char>>>)
    ensures
        last_error(results) is None <==> forall|i: int|
            0 <= i < results.len() ==> (#[trigger] results[i]) is None,
    decreases results.len(),
{
    if results.len() > 0 {
        lemma_last_error(results.drop_last());
        if last_error(results) is None {
            assert forall|i: int| 0 <= i < results.len() implies (#[trigger] results[i]) is None by {
                if i < results.len() - 1 {
                    assert(results.drop_last()[i] is None);
                }
            }
        } else if results.last() is None {
            let i = choose|i: int|
                0 <= i < results.drop_last().len() && (#[trigger] results.drop_last()[i]) is Some;
            assert(results[i] is Some);
        }
    }
}

proof fn lemma_shards_removed(entries: catalog::Entries, key: Seq<char>, shards: Seq<usize>)
    ensures
        forall|k: Seq<char>|
            k != key ==> (#[trigger] catalog::shards_removed(entries, key, shards).contains_key(k)
                == entries.contains_key(k) && (entries.contains_key(k) ==> catalog::shards_removed(
                entries,
                key,
                shards,
            )[k] == entries[k])),
        catalog::shards_removed(entries, key, shards).contains_key(key) ==> entries.contains_key(
            key,
        ) && forall|x: usize|
            #[trigger] catalog::shards_removed(entries, key, shards)[key].shards.contains(x)
                ==> entries[key].shards.contains(x) && !shards.contains(x),
    decreases shards.len(),
{
    if shards.len() > 0 {
        let next = catalog::shard_removed(entries, key, shards[0]);
        lemma_shards_removed(next, key, shards.drop_first());
        if entries.contains_key(key) {
            ids::lemma_without(entries[key].shards, shards[0]);
        }
        let after = catalog::shards_removed(entries, key, shards);
        assert(after == catalog::shards_removed(next, key, shards.drop_first()));
        assert forall|k: Seq<char>| k != key implies #[trigger] after.contains_key(k)
            == entries.contains_key(k) && (entries.contains_key(k) ==> after[k] == entries[k]) by {
            assert(next.contains_key(k) == entries.contains_key(k));
            assert(entries.contains_key(k) ==> next[k] == entries[k]);
            assert(catalog::shards_removed(next, key, shards.drop_first()).contains_key(k)
                == next.contains_key(k));
        }
        if after.contains_key(key) {
            assert forall|x: usize| #[trigger] after[key].shards.contains(x) implies entries[key].shards.contains(
                x,
            ) && !shards.contains(x) by {
                assert(next[key].shards.contains(x));
                assert(ids::without(entries[key].shards, shards[0]).contains(x));
                assert(x != shards[0]);
                if shards.contains(x) {
                    let i = shards.index_of(x);
                    assert(shards.drop_first()[i - 1] == x);
                }
            }
        }
    }
}

/// A delete that no shard failed leaves no entry of the object.
pub proof fn a_delete_that_no_shard_failed_leaves_no_entry(
    c: store::ClusterState,
    key: Seq<char>,
    asked: Seq<usize>,
    results: Seq<Option<Seq<char>>>,
)
    requires
        forall|i: int| 0 <= i < results.len() ==> (#[trigger] results[i]) is None,
    ensures
        delete_reported(c, key, asked, results).1 is Ok,
        !delete_reported(c, key, asked, results).0.entries.contains_key(key),
{
    lemma_last_error(results);
}

/// After a delete, whatever its outcome, the catalog lists the object on no shard that
/// it is gone from, and all other objects as before.
pub proof fn a_delete_lists_no_shard_that_the_object_is_gone_from(
    c: store::ClusterState,
    key: Seq<char>,
    asked: Seq<usize>,
    results: Seq<Option<Seq<char>>>,
)
    ensures
        ({
            let after = delete_reported(c, key, asked, results).0;
            &&& after.entries.contains_key(key) ==> forall|id: usize| #[trigger]
                after.entries[key].shards.contains(id) ==> c.entries[key].shards.contains(id)
                    && !writes::successes(asked, results).contains(id)
            &&& forall|k: Seq<char>|
                k != key ==> (#[trigger] after.entries.contains_key(k) == c.entries.contains_key(k)
                    && (c.entries.contains_key(k) ==> after.entries[k] == c.entries[k]))
        }),
{
    lemma_shards_removed(c.entries, key, writes::successes(asked, results));
}

/// In a cluster that is not read-only, the deletion of an object always begins with a
/// delete marker: one that as many shards as a put needs must take if the cluster asks
/// that of deletions, one that any shard may take if it does not. Only a delete marker
/// itself is deleted without one.
pub proof fn a_deletion_begins_with_a_marker(c: store::ClusterState, key: Seq<char>)
    ensures
        !c.read_only && !markers::is_marker(key) ==> (delete_plan(c, key) matches DeletePlan::MarkerFirst(
            m,
        ) && m.marks() && (m == PutMode::StrictMarker <==> c.delete_requires_min_writes)),
        delete_plan(c, key) == DeletePlan::Direct ==> markers::is_marker(key) && !c.read_only,
        delete_plan(c, key) == DeletePlan::ReadOnly <==> c.read_only,
{
}

/// An object is deleted from the shards of its entry that can be reached, and if it has
/// none from all shards that can be.
pub proof fn a_delete_asks_every_shard_that_may_hold_the_object(
    c: store::ClusterState,
    key: Seq<char>,
)
    requires
        c.shards.len() <= usize::MAX,
    ensures
        forall|id: usize| #[trigger]
            delete_targets(c, key).contains(id) <==> id < c.shards.len() && (
            c.shards[id as int].health == store::ShardHealth::Healthy
                || c.shards[id as int].health == store::ShardHealth::Degraded) && (
            c.entries.contains_key(key) ==> c.entries[key].shards.contains(id)),
{
    let readable = |id: usize| placement::is_readable(c.shards, id);
    let all = placement::all_ids(c.shards.len());
    let of = if c.entries.contains_key(key) {
        c.entries[key].shards
    } else {
        all
    };
    assert forall|id: usize| #[trigger] delete_targets(c, key).contains(id) <==> of.contains(id)
        && readable(id) by {
        writes::lemma_kept(of, readable, id);
    }
    assert forall|id: usize| id < c.shards.len() implies all.contains(id) by {
        assert(all[id as int] == id);
    }
}

/// A delete fails exactly if a shard has failed and too few have not: fewer than a put
/// needs if the cluster asks that of deletions, none at all if it does not. The error is
/// that of the last shard that failed. An object that was not there is gone.
pub proof fn a_delete_fails_only_if_too_few_shards_are_rid_of_it(
    c: store::ClusterState,
    key: Seq<char>,
    asked: Seq<usize>,
    answers: Seq<DeleteAnswer>,
    last: int,
)
    requires
        asked.len() == answers.len(),
        0 <= last < answers.len(),
        answers[last] is Failed,
        forall|i: int| last < i < answers.len() ==> (#[trigger] answers[i]) !is Failed,
    ensures
        ({
            let gone = answers.filter(|a: DeleteAnswer| a !is Failed).len();
            let r = delete_reported(c, key, asked, outcomes(answers)).1;
            &&& r is Ok <==> gone >= if c.delete_requires_min_writes {
                c.min_writes
            } else {
                1
            }
            &&& r matches Err(e) ==> answers[last] matches DeleteAnswer::Failed(m) && m@ == e
        }),
{
    lemma_gone(asked, answers);
    lemma_last(outcomes(answers), last);
    assert forall|i: int| last < i < answers.len() implies outcomes(answers)[i] is None by {
        assert(answers[i] !is Failed);
    }
}

proof fn lemma_last(results: Seq<Option<Seq<char>>>, last: int)
    requires
        0 <= last < results.len(),
        results[last] is Some,
    ensures
        (forall|i: int| last < i < results.len() ==> (#[trigger] results[i]) is None)
            ==> last_error(results) == results[last],
    decreases results.len(),
{
    if last < results.len() - 1 && (forall|i: int|
        last < i < results.len() ==> (#[trigger] results[i]) is None) {
        assert(results[results.len() - 1] is None);
        lemma_last(results.drop_last(), last);
        assert forall|i: int| last < i < results.drop_last().len() implies (
        #[trigger] results.drop_last()[i]) is None by {
            assert(results[i] is None);
        }
    }
}

proof fn lemma_gone(asked: Seq<usize>, answers: Seq<DeleteAnswer>)
    requires
        asked.len() == answers.len(),
    ensures
        writes::successes(asked, outcomes(answers)).len() == answers.filter(
            |a: DeleteAnswer| a !is Failed,
        ).len(),
    decreases asked.len(),
{
    reveal(Seq::filter);
    if asked.len() > 0 {
        lemma_gone(asked.drop_last(), answers.drop_last());
        assert(outcomes(answers).drop_last() =~= outcomes(answers.drop_last()));
        assert(outcomes(answers).last() == outcome(answers.last()));
    }
}

proof fn lemma_left(entries: catalog::Entries, key: Seq<char>, shards: Seq<usize>)
    requires
        entries.contains_key(key),
    ensures
        forall|id: usize| #[trigger]
            entries[key].shards.contains(id) && !shards.contains(id) ==> catalog::shards_removed(
                entries,
                key,
                shards,
            ).contains_key(key) && catalog::shards_removed(entries, key, shards)[key].shards.contains(
                id,
            ),
    decreases shards.len(),
{
    if shards.len() > 0 {
        let next = catalog::shard_removed(entries, key, shards[0]);
        catalog::a_shard_that_is_taken_out_is_gone_alone(entries, key, shards[0]);
        if next.contains_key(key) {
            lemma_left(next, key, shards.drop_first());
        }
        assert forall|id: usize| #[trigger] entries[key].shards.contains(id) && !shards.contains(
            id,
        ) implies catalog::shards_removed(entries, key, shards).contains_key(key)
            && catalog::shards_removed(entries, key, shards)[key].shards.contains(id) by {
            assert(id != shards[0]) by {
                assert(shards.contains(shards[0]));
            }
            if shards.drop_first().contains(id) {
                let i = shards.drop_first().index_of(id);
                assert(shards[i + 1] == id);
            }
            assert(next[key].shards.contains(id));
        }
    }
}

/// A delete that a shard has failed loses track of no copy: the catalog still lists the
/// object on every shard from which it is not gone.
pub proof fn a_delete_keeps_track_of_what_is_left(
    c: store::ClusterState,
    key: Seq<char>,
    asked: Seq<usize>,
    results: Seq<Option<Seq<char>>>,
    id: usize,
)
    requires
        asked.len() == results.len(),
        exists|i: int| 0 <= i < results.len() && (#[trigger] results[i]) is Some,
        c.entries.contains_key(key),
        c.entries[key].shards.contains(id),
        !writes::answered_with(asked, results, id, true),
    ensures
        ({
            let after = delete_reported(c, key, asked, results).0;
            after.entries.contains_key(key) && after.entries[key].shards.contains(id)
        }),
{
    lemma_last_error(results);
    writes::answers_part_the_shards(asked, results);
    lemma_left(c.entries, key, writes::successes(asked, results));
}

proof fn lemma_nothing_removed(entries: catalog::Entries, key: Seq<char>, shards: Seq<usize>)
    requires
        !entries.contains_key(key) || shards.len() == 0,
    ensures
        catalog::shards_removed(entries, key, shards) == entries,
    decreases shards.len(),
{
    if shards.len() > 0 {
        lemma_nothing_removed(entries, key, shards.drop_first());
    }
}

/// A delete that changes the catalog leaves it marked as changed, and changes nothing else
/// of the cluster.
pub proof fn a_delete_that_changes_the_catalog_marks_it(
    c: store::ClusterState,
    key: Seq<char>,
    asked: Seq<usize>,
    results: Seq<Option<Seq<char>>>,
)
    ensures
        ({
            let after = delete_reported(c, key, asked, results).0;
            &&& after.entries != c.entries ==> after.dirty
            &&& c.dirty ==> after.dirty
            &&& after == (store::ClusterState { entries: after.entries, dirty: after.dirty, ..c })
        }),
{
    let from = writes::successes(asked, results);
    if from.len() == 0 || !c.entries.contains_key(key) {
        lemma_nothing_removed(c.entries, key, from);
    }
    if !c.entries.contains_key(key) {
        assert(c.entries.remove(key) =~= c.entries);
    }
}

} // verus!
