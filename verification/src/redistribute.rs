//! Redistributing objects: moving them from the fullest shards to the emptiest.
//!
//! An object is first copied to its new shard, and dropped from the old one only when
//! enough copies are in place, so that it never has too few.

use vstd::prelude::*;
use vstd::string::*;
use crate::balance;
use crate::catalog;
use crate::ids;
use crate::ids::{has_id, ShardId};
use crate::placement;
use crate::repair;
use crate::repair::SweepOutcome;
use crate::scan;
use crate::store;
use crate::store::ShardedObjectStore;
use crate::string_map;
use crate::tally;
use crate::tally::count_up;
use crate::time::Timestamp;

verus! {

// -- Ordering shards by how full they are -----------------------------------

/// A shard put in its place among others that stand from the fullest to the emptiest:
/// after all that hold at least as many objects.
pub open spec fn ranked_in(counts: Seq<(usize, usize)>, x: (usize, usize)) -> Seq<(usize, usize)>
    decreases counts.len(),
{
    if counts.len() > 0 && counts.last().1 < x.1 {
        ranked_in(counts.drop_last(), x).push(counts.last())
    } else {
        counts.push(x)
    }
}

/// Shards from the fullest to the emptiest. Those that hold the same number of objects
/// stay in order.
pub open spec fn ranked(counts: Seq<(usize, usize)>) -> Seq<(usize, usize)>
    decreases counts.len(),
{
    if counts.len() == 0 {
        counts
    } else {
        ranked_in(ranked(counts.drop_last()), counts.last())
    }
}

proof fn lemma_ranked_in(counts: Seq<(usize, usize)>, x: (usize, usize), p: int)
    requires
        0 <= p <= counts.len(),
        forall|k: int| p <= k < counts.len() ==> (#[trigger] counts[k]).1 < x.1,
        p > 0 ==> counts[p - 1].1 >= x.1,
    ensures
        ranked_in(counts, x) == counts.insert(p, x),
    decreases counts.len(),
{
    if p < counts.len() {
        let head = counts.drop_last();
        assert(counts[counts.len() - 1].1 < x.1);
        assert forall|k: int| p <= k < head.len() implies (#[trigger] head[k]).1 < x.1 by {
            assert(head[k] == counts[k]);
        }
        lemma_ranked_in(head, x, p);
        assert(head.insert(p, x).push(counts.last()) =~= counts.insert(p, x));
    } else {
        assert(counts.push(x) =~= counts.insert(p, x));
    }
}

/// Whether shards stand from the fullest to the emptiest.
pub open spec fn descending(counts: Seq<(usize, usize)>) -> bool {
    forall|i: int, j: int|
        0 <= i < j < counts.len() ==> (#[trigger] counts[i]).1 >= (#[trigger] counts[j]).1
}

/// Whether no shard stands twice.
pub open spec fn distinct(counts: Seq<(usize, usize)>) -> bool {
    forall|i: int, j: int|
        0 <= i < j < counts.len() ==> (#[trigger] counts[i]).0 != (#[trigger] counts[j]).0
}

proof fn lemma_ranked_in_order(counts: Seq<(usize, usize)>, x: (usize, usize)) -> (p: int)
    requires
        descending(counts),
    ensures
        0 <= p <= counts.len(),
        ranked_in(counts, x) == counts.insert(p, x),
        descending(ranked_in(counts, x)),
    decreases counts.len(),
{
    if counts.len() > 0 && counts.last().1 < x.1 {
        let head = counts.drop_last();
        assert(descending(head));
        let p = lemma_ranked_in_order(head, x);
        let r = ranked_in(counts, x);
        let h = ranked_in(head, x);
        assert(head.insert(p, x).push(counts.last()) =~= counts.insert(p, x));
        assert forall|i: int, j: int| 0 <= i < j < r.len() implies (#[trigger] r[i]).1 >= (
        #[trigger] r[j]).1 by {
            if j < h.len() {
                assert(h[i].1 >= h[j].1);
            } else if i < p {
                assert(r[i] == counts[i]);
            } else if i == p {
                assert(r[i] == x);
            } else {
                assert(r[i] == counts[i - 1]);
            }
        }
        p
    } else {
        let p = counts.len() as int;
        assert(counts.push(x) =~= counts.insert(p, x));
        let r = ranked_in(counts, x);
        assert forall|i: int, j: int| 0 <= i < j < r.len() implies (#[trigger] r[i]).1 >= (
        #[trigger] r[j]).1 by {
            if j == counts.len() {
                if i < counts.len() - 1 {
                    assert(counts[i].1 >= counts[counts.len() - 1].1);
                }
            }
        }
        p
    }
}

/// Ranking shards orders them from the fullest to the emptiest, and neither loses nor
/// repeats one.
pub proof fn ranking_orders_the_shards(counts: Seq<(usize, usize)>)
    ensures
        descending(ranked(counts)),
        ranked(counts).to_multiset() == counts.to_multiset(),
        ranked(counts).len() == counts.len(),
        distinct(counts) ==> distinct(ranked(counts)),
        forall|x: (usize, usize)| #[trigger] ranked(counts).contains(x) <==> counts.contains(x),
    decreases counts.len(),
{
    broadcast use vstd::seq_lib::group_to_multiset_ensures;

    if counts.len() > 0 {
        let head = counts.drop_last();
        let x = counts.last();
        ranking_orders_the_shards(head);
        let h = ranked(head);
        let p = lemma_ranked_in_order(h, x);
        let r = ranked(counts);
        assert(counts =~= head.push(x));
        vstd::seq_lib::to_multiset_insert(h, p, x);
        vstd::seq_lib::to_multiset_build(head, x);
        assert forall|y: (usize, usize)| r.contains(y) <==> counts.contains(y) by {
            assert(r.to_multiset().count(y) > 0 <==> r.contains(y));
            assert(counts.to_multiset().count(y) > 0 <==> counts.contains(y));
        }
        if distinct(counts) {
            assert forall|i: int, j: int| 0 <= i < j < head.len() implies (#[trigger] head[i]).0
                != (#[trigger] head[j]).0 by {
                assert(counts[i].0 != counts[j].0);
            }
            assert(distinct(h));
            assert forall|k: int| 0 <= k < h.len() implies (#[trigger] h[k]).0 != x.0 by {
                assert(h.contains(h[k]));
                let m = head.index_of(h[k]);
                assert(counts[m].0 != counts[counts.len() - 1].0);
            }
            assert forall|i: int, j: int| 0 <= i < j < r.len() implies (#[trigger] r[i]).0 != (
            #[trigger] r[j]).0 by {
                let a = if i < p {
                    i
                } else {
                    i - 1
                };
                let b = if j < p {
                    j
                } else {
                    j - 1
                };
                if i == p {
                    assert(r[j] == h[b]);
                } else if j == p {
                    assert(r[i] == h[a]);
                } else {
                    assert(r[i] == h[a] && r[j] == h[b]);
                    assert(h[a].0 != h[b].0);
                }
            }
        }
    }
}

fn rank_shards(counts: &Vec<(ShardId, usize)>) -> (r: Vec<(ShardId, usize)>)
    ensures
        r@ == ranked(counts@),
{
    let mut r: Vec<(ShardId, usize)> = Vec::new();
    let mut i: usize = 0;
    assert(counts@.take(0) =~= Seq::<(usize, usize)>::empty());
    while i < counts.len()
        invariant
            i <= counts.len(),
            r@ == ranked(counts@.take(i as int)),
        decreases counts.len() - i,
    {
        proof {
            assert(counts@.take(i + 1).drop_last() =~= counts@.take(i as int));
            assert(counts@.take(i + 1).last() == counts@[i as int]);
        }
        let x = counts[i];
        let mut p: usize = r.len();
        while p > 0 && r[p - 1].1 < x.1
            invariant
                p <= r.len(),
                forall|k: int| p <= k < r.len() ==> (#[trigger] r@[k]).1 < x.1,
            decreases p,
        {
            p = p - 1;
        }
        proof {
            lemma_ranked_in(r@, x, p as int);
        }
        r.insert(p, x);
        i = i + 1;
    }
    assert(counts@.take(i as int) =~= counts@);
    r
}

// -- The sweep --------------------------------------------------------------

/// A redistribution in progress.
pub struct RedistributeState {
    /// How many objects each healthy shard holds.
    pub counts: Seq<(usize, usize)>,
    /// The shards that were healthy when it began.
    pub healthy: Seq<usize>,
    pub rf: nat,
    pub batch_size: nat,
    pub moved: usize,
    pub skipped: usize,
    pub errors: usize,
}

/// Whether the shards of a redistribution are those that were healthy, each once.
pub open spec fn well_formed(s: RedistributeState) -> bool {
    &&& distinct(s.counts)
    &&& forall|i: int|
        0 <= i < s.counts.len() ==> s.healthy.contains((#[trigger] s.counts[i]).0)
    &&& s.counts.len() >= 2
}

/// The shards of some counts.
pub open spec fn ids_of(counts: Seq<(usize, usize)>) -> Seq<usize> {
    Seq::new(counts.len(), |i: int| counts[i].0)
}

/// Whether all shards are empty.
pub open spec fn all_empty(counts: Seq<(usize, usize)>) -> bool {
    forall|i: int| 0 <= i < counts.len() ==> (#[trigger] counts[i]).1 == 0
}

/// A redistribution when it begins. There is nothing to do if some object has too few
/// copies, if there are fewer than two healthy shards, or if they hold nothing.
pub open spec fn redistribute_begun(c: store::ClusterState, batch_size: nat) -> Option<
    RedistributeState,
> {
    let counts = balance::object_counts(c);
    if balance::under_replicated(c).len() > 0 || counts.len() < 2 || all_empty(counts) {
        None
    } else {
        Some(
            RedistributeState {
                counts,
                healthy: ids_of(counts),
                rf: c.rf,
                batch_size,
                moved: 0,
                skipped: 0,
                errors: 0,
            },
        )
    }
}

/// Whether a shard was healthy, and is not a given one.
pub open spec fn sound(healthy: Seq<usize>, but: Option<usize>) -> spec_fn(usize) -> bool {
    |id: usize| but != Some(id) && healthy.contains(id)
}

/// The copies of an object on shards that were healthy.
pub open spec fn sound_copies(s: RedistributeState, held: Seq<usize>) -> nat {
    balance::copies(held, sound(s.healthy, None))
}

/// The copies of an object on shards that were healthy, other than one.
pub open spec fn sound_copies_but(s: RedistributeState, held: Seq<usize>, but: usize) -> nat {
    balance::copies(held, sound(s.healthy, Some(but)))
}

/// Whether an object can be moved: the new shard does not hold it, and with a copy there
/// it has enough copies without the one on the old shard.
pub open spec fn movable(s: RedistributeState, held: Seq<usize>, from: usize, to: usize) -> bool {
    !held.contains(to) && sound_copies_but(s, held, from) + 1 >= s.rf
}

/// The first object of some that can be moved.
pub open spec fn first_movable(
    c: store::ClusterState,
    s: RedistributeState,
    keys: Seq<Seq<char>>,
    from: usize,
    to: usize,
) -> Option<Seq<char>>
    decreases keys.len(),
{
    if keys.len() == 0 {
        None
    } else if movable(s, c.entries[keys[0]].shards, from, to) {
        Some(keys[0])
    } else {
        first_movable(c, s, keys.drop_first(), from, to)
    }
}

/// What comes next in a redistribution.
pub enum StepSpec {
    Copy { key: Seq<char>, from: usize, to: usize },
    Remove { key: Seq<char>, from: usize, to: usize },
    Done,
}

/// What comes next in a redistribution.
#[derive(Debug)]
pub enum RedistributeStep {
    /// Copy the object from one shard to another.
    Copy { key: String, from: ShardId, to: ShardId },
    /// Delete the object from the shard that it was copied from.
    Remove { key: String, from: ShardId, to: ShardId },
    /// There is nothing left to do.
    Done,
}

impl View for RedistributeStep {
    type V = StepSpec;

    open spec fn view(&self) -> StepSpec {
        match *self {
            RedistributeStep::Copy { key, from, to } => StepSpec::Copy { key: key@, from, to },
            RedistributeStep::Remove { key, from, to } => StepSpec::Remove { key: key@, from, to },
            RedistributeStep::Done => StepSpec::Done,
        }
    }
}

/// The redistribution when the next object is due, and what to do, given whether the
/// shards are balanced well enough. It ends if they are, if the batch is used up, if
/// the fullest shard holds at most one object more than the emptiest, or if no object
/// of the fullest can be moved.
pub open spec fn redistribute_next(c: store::ClusterState, s: RedistributeState, balanced: bool) -> (
    RedistributeState,
    StepSpec,
) {
    if s.moved >= s.batch_size {
        (s, StepSpec::Done)
    } else {
        let counts = ranked(s.counts);
        let next = RedistributeState { counts, ..s };
        let (from, most) = counts[0];
        let (to, least) = counts.last();
        if balanced || most <= least + 1 {
            (next, StepSpec::Done)
        } else {
            match first_movable(c, s, catalog::keys_on_shard(c.entries, from), from, to) {
                Some(key) => (next, StepSpec::Copy { key, from, to }),
                None => (next, StepSpec::Done),
            }
        }
    }
}

/// How many objects shards hold after one was moved.
pub open spec fn object_moved(counts: Seq<(usize, usize)>, from: usize, to: usize) -> Seq<
    (usize, usize),
> {
    Seq::new(
        counts.len(),
        |i: int|
            {
                let (id, n) = counts[i];
                let less = if id == from && n > 0 {
                    (n - 1) as usize
                } else {
                    n
                };
                (
                    id,
                    if id == to {
                        tally::up(less)
                    } else {
                        less
                    },
                )
            },
    )
}

/// The cluster, the redistribution and what has to follow at once, after a step was
/// carried out. The old copy is dropped only if enough copies are in place.
pub open spec fn redistribute_reported(
    c: store::ClusterState,
    s: RedistributeState,
    step: StepSpec,
    outcome: SweepOutcome,
    now: Timestamp,
) -> (store::ClusterState, RedistributeState, Option<StepSpec>) {
    match (step, outcome) {
        (StepSpec::Copy { key, from, to }, SweepOutcome::Copied { size, meta_len }) => {
            let after = scan::copied(c, key, to, size, repair::recorded_len(meta_len), now);
            if sound_copies(s, after.entries[key].shards) >= s.rf {
                (after, s, Some(StepSpec::Remove { key, from, to }))
            } else {
                (after, RedistributeState { skipped: tally::up(s.skipped), ..s }, None)
            }
        },
        (StepSpec::Remove { key, from, to }, SweepOutcome::Trimmed) => (
            scan::copy_removed(c, key, from),
            RedistributeState {
                moved: tally::up(s.moved),
                counts: object_moved(s.counts, from, to),
                ..s
            },
            None,
        ),
        _ => (c, RedistributeState { errors: tally::up(s.errors), ..s }, None),
    }
}

/// What has to follow, in the terms of the model.
pub open spec fn follow_view(r: Option<RedistributeStep>) -> Option<StepSpec> {
    match r {
        Some(s) => Some(s@),
        None => None,
    }
}

/// How full the shards are: the most and the fewest objects on one, and, from when the
/// redistribution began, all objects and the number of shards. Balance is judged by
/// the difference of the first two over the mean that the last two give.
#[derive(Debug, Clone, Copy, PartialEq, Eq, Structural)]
pub struct Spread {
    pub most: usize,
    pub least: usize,
    pub total: u128,
    pub shards: usize,
}

/// All objects on some shards.
pub open spec fn total_of(counts: Seq<(usize, usize)>) -> nat
    decreases counts.len(),
{
    if counts.len() == 0 {
        0
    } else {
        total_of(counts.drop_last()) + counts.last().1 as nat
    }
}

/// A redistribution in progress.
#[derive(Debug)]
pub struct RedistributeJob {
    counts: Vec<(ShardId, usize)>,
    healthy: Vec<ShardId>,
    rf: usize,
    batch_size: usize,
    moved: usize,
    skipped: usize,
    errors: usize,
    total: u128,
}

impl View for RedistributeJob {
    type V = RedistributeState;

    closed spec fn view(&self) -> RedistributeState {
        RedistributeState {
            counts: self.counts@,
            healthy: self.healthy@,
            rf: self.rf as nat,
            batch_size: self.batch_size as nat,
            moved: self.moved,
            skipped: self.skipped,
            errors: self.errors,
        }
    }
}

/// The outcome of a redistribution.
#[derive(Debug)]
pub struct RedistributeResult {
    /// Objects that were moved.
    pub moved: usize,
    /// Objects that were copied, but not dropped from their old shard.
    pub skipped: usize,
    /// Steps that failed.
    pub errors: usize,
    /// How many objects each healthy shard holds now.
    pub shard_counts: Vec<(ShardId, usize)>,
}

/// A redistribution that may have nothing to do, in the terms of the model.
pub open spec fn job_view(r: Option<RedistributeJob>) -> Option<RedistributeState> {
    match r {
        Some(j) => Some(j@),
        None => None,
    }
}

/// Begins a redistribution, if there is anything to do.
pub fn redistribute_sweep(store: &ShardedObjectStore, batch_size: usize) -> (r: Option<
    RedistributeJob,
>)
    ensures
        job_view(r) == redistribute_begun(store@, batch_size as nat),
        r matches Some(j) ==> well_formed(j@) && j.initial_total() == total_of(
            balance::object_counts(store@),
        ),
{
    let under = store.find_under_replicated();
    assert(balance::count_views(under@).len() == balance::under_replicated(store@).len());
    let counts = store.shard_object_counts();
    if under.len() > 0 || counts.len() < 2 {
        return None;
    }
    let mut healthy: Vec<ShardId> = Vec::new();
    let mut total: u128 = 0;
    let mut empty = true;
    let mut i: usize = 0;
    assert(counts@.take(0) =~= Seq::<(usize, usize)>::empty());
    while i < counts.len()
        invariant
            i <= counts.len(),
            healthy@ == ids_of(counts@).take(i as int),
            total == total_of(counts@.take(i as int)),
            total <= i * 0x1_0000_0000_0000_0000,
            empty <==> forall|k: int| 0 <= k < i ==> (#[trigger] counts@[k]).1 == 0,
        decreases counts.len() - i,
    {
        proof {
            assert(counts@.take(i + 1).drop_last() =~= counts@.take(i as int));
            assert(counts@.take(i + 1).last() == counts@[i as int]);
        }
        let n: usize = counts[i].1;
        healthy.push(counts[i].0);
        assert(healthy@ =~= ids_of(counts@).take(i + 1));
        assert((i + 1) * 0x1_0000_0000_0000_0000 == i * 0x1_0000_0000_0000_0000
            + 0x1_0000_0000_0000_0000);
        assert(i * 0x1_0000_0000_0000_0000 <= 0xffff_ffff_ffff_ffff * 0x1_0000_0000_0000_0000);
        total = total + n as u128;
        if n != 0 {
            empty = false;
        }
        i = i + 1;
    }
    assert(counts@.take(i as int) =~= counts@);
    assert(ids_of(counts@).take(i as int) =~= ids_of(counts@));
    if empty {
        return None;
    }
    let _shards: usize = store.shard_count();
    proof {
        lemma_counts(store@);
        assert forall|k: int| 0 <= k < counts@.len() implies healthy@.contains(
            (#[trigger] counts@[k]).0,
        ) by {
            assert(healthy@[k] == counts@[k].0);
        }
    }
    Some(
        RedistributeJob {
            counts,
            healthy,
            rf: store.replication_factor(),
            batch_size,
            moved: 0,
            skipped: 0,
            errors: 0,
            total,
        },
    )
}

proof fn lemma_counts(c: store::ClusterState)
    requires
        c.shards.len() <= usize::MAX,
    ensures
        distinct(balance::object_counts(c)),
{
    let all = placement::all_ids(c.shards.len());
    assert forall|i: int, j: int| 0 <= i < j < all.len() implies all[i] != all[j] by {}
    placement::lemma_filter_distinct(all, |id: usize| balance::is_healthy(c.shards, id));
    let counts = balance::object_counts(c);
    let healthy = balance::healthy_ids(c.shards);
    assert forall|i: int, j: int| 0 <= i < j < counts.len() implies (#[trigger] counts[i]).0 != (
    #[trigger] counts[j]).0 by {
        assert(healthy[i] != healthy[j]);
    }
}

impl RedistributeJob {
    /// All objects that the shards held when the redistribution began.
    pub closed spec fn initial_total(&self) -> nat {
        self.total as nat
    }

    /// How full the shards are.
    pub fn spread(&self) -> (r: Spread)
        requires
            self@.counts.len() > 0,
        ensures
            r.total == self.initial_total(),
            r.shards == self@.counts.len(),
            exists|i: int| 0 <= i < self@.counts.len() && (#[trigger] self@.counts[i]).1 == r.most,
            exists|i: int| 0 <= i < self@.counts.len() && (#[trigger] self@.counts[i]).1 == r.least,
            forall|i: int|
                0 <= i < self@.counts.len() ==> r.least <= (#[trigger] self@.counts[i]).1 <= r.most,
    {
        let mut most: usize = self.counts[0].1;
        let mut least: usize = self.counts[0].1;
        assert(self.counts@[0].1 == most);
        let mut i: usize = 1;
        while i < self.counts.len()
            invariant
                1 <= i <= self.counts.len(),
                exists|k: int| 0 <= k < i && (#[trigger] self.counts@[k]).1 == most,
                exists|k: int| 0 <= k < i && (#[trigger] self.counts@[k]).1 == least,
                forall|k: int| 0 <= k < i ==> least <= (#[trigger] self.counts@[k]).1 <= most,
            decreases self.counts.len() - i,
        {
            let n: usize = self.counts[i].1;
            assert(self.counts@[i as int].1 == n);
            if n > most {
                most = n;
            }
            if n < least {
                least = n;
            }
            i = i + 1;
        }
        Spread { most, least, total: self.total, shards: self.counts.len() }
    }

    fn count_sound(&self, held: &[ShardId], but: Option<ShardId>) -> (n: usize)
        ensures
            but matches Some(b) ==> n == sound_copies_but(self@, held@, b),
            but is None ==> n == sound_copies(self@, held@),
            n <= held.len(),
    {
        let ghost pred = sound(self.healthy@, but);
        proof {
            placement::lemma_filter_none(held@, pred);
        }
        let mut n: usize = 0;
        let mut i: usize = 0;
        while i < held.len()
            invariant
                i <= held.len(),
                n <= i,
                pred == sound(self.healthy@, but),
                n == held@.take(i as int).filter(pred).len(),
            decreases held.len() - i,
        {
            proof {
                placement::lemma_filter_step(held@, i as int, pred);
            }
            let other = match but {
                Some(b) => b != held[i],
                None => true,
            };
            if other && has_id(self.healthy.as_slice(), held[i]) {
                n = n + 1;
            }
            i = i + 1;
        }
        assert(held@.take(i as int) =~= held@);
        n
    }

    /// What comes next, given the cluster as it is and whether the shards are balanced
    /// well enough.
    pub fn next(&mut self, store: &ShardedObjectStore, balanced: bool) -> (step: RedistributeStep)
        requires
            old(self)@.counts.len() > 0,
        ensures
            (final(self)@, step@) == redistribute_next(store@, old(self)@, balanced),
            final(self).initial_total() == old(self).initial_total(),
            well_formed(old(self)@) ==> well_formed(final(self)@),
    {
        if self.moved >= self.batch_size {
            return RedistributeStep::Done;
        }
        let ghost s = self@;
        proof {
            ranking_orders_the_shards(s.counts);
            assert forall|i: int|
                well_formed(s) && 0 <= i < ranked(s.counts).len() implies s.healthy.contains(
                (#[trigger] ranked(s.counts)[i]).0,
            ) by {
                let x = ranked(s.counts)[i];
                assert(ranked(s.counts).contains(x));
                let j = s.counts.index_of(x);
                assert(s.counts[j] == x);
            }
        }
        let counts = rank_shards(&self.counts);
        let (from, most) = counts[0];
        let (to, least) = counts[counts.len() - 1];
        self.counts = counts;
        let ghost next = self@;
        if balanced || most <= least || most - least <= 1 {
            return RedistributeStep::Done;
        }
        let entries = store.catalog().entries_for_shard(from);
        let ghost keys = catalog::keys_on_shard(store@.entries, from);
        let mut i: usize = 0;
        assert(catalog::entry_views(entries@).len() == keys.len());
        assert(keys.skip(0) =~= keys);
        while i < entries.len()
            invariant
                i <= entries.len(),
                entries@.len() == keys.len(),
                keys == catalog::keys_on_shard(store@.entries, from),
                catalog::entry_views(entries@) == catalog::pairs(store@.entries, keys),
                self@ == next,
                s == old(self)@,
                next == (RedistributeState { counts: ranked(s.counts), ..s }),
                well_formed(s) ==> well_formed(next),
                s.moved < s.batch_size,
                !balanced,
                next.counts[0] == (from, most),
                next.counts.last() == (to, least),
                most > least + 1,
                self.total == old(self).total,
                first_movable(store@, s, keys.skip(i as int), from, to) == first_movable(
                    store@,
                    s,
                    keys,
                    from,
                    to,
                ),
            decreases entries.len() - i,
        {
            proof {
                assert(catalog::entry_views(entries@)[i as int] == catalog::pairs(
                    store@.entries,
                    keys,
                )[i as int]);
                assert(entries@[i as int].0@ == keys[i as int]);
                assert(entries@[i as int].1@ == store@.entries[keys[i as int]]);
                assert(keys.skip(i as int)[0] == keys[i as int]);
                assert(keys.skip(i as int).drop_first() =~= keys.skip(i + 1));
            }
            let held = entries[i].1.shards.as_slice();
            let n: usize = self.count_sound(held, Some(from));
            if !has_id(held, to) && (n >= self.rf || n + 1 >= self.rf) {
                return RedistributeStep::Copy { key: entries[i].0.clone(), from, to };
            }
            i = i + 1;
        }
        assert(keys.skip(i as int) =~= Seq::<Seq<char>>::empty());
        RedistributeStep::Done
    }

    /// Takes the outcome of a step. What has to follow at once, if anything.
    pub fn report(
        &mut self,
        store: &mut ShardedObjectStore,
        step: &RedistributeStep,
        outcome: SweepOutcome,
        now: Timestamp,
    ) -> (follow: Option<RedistributeStep>)
        ensures
            (final(store)@, final(self)@, follow_view(follow)) == redistribute_reported(
                old(store)@,
                old(self)@,
                step@,
                outcome,
                now,
            ),
            final(self).initial_total() == old(self).initial_total(),
            well_formed(old(self)@) ==> well_formed(final(self)@),
            store::valid(old(store)@) ==> store::valid(final(store)@),
    {
        match (step, outcome) {
            (
                RedistributeStep::Copy { key, from, to },
                SweepOutcome::Copied { size, meta_len },
            ) => {
                store.record_copy(key.as_str(), *to, size, meta_len, now);
                let enough = match store.placement(key.as_str()) {
                    Some(e) => self.count_sound(e.shards.as_slice(), None) >= self.rf,
                    None => false,
                };
                if enough {
                    Some(RedistributeStep::Remove { key: key.clone(), from: *from, to: *to })
                } else {
                    self.skipped = count_up(self.skipped);
                    None
                }
            },
            (RedistributeStep::Remove { key, from, to }, SweepOutcome::Trimmed) => {
                store.catalog_mut().remove_shard(key.as_str(), *from);
                self.moved = count_up(self.moved);
                let counts = move_count(&self.counts, *from, *to);
                proof {
                    let before = self.counts@;
                    if well_formed(old(self)@) {
                        assert forall|i: int, j: int| 0 <= i < j < counts@.len() implies (
                        #[trigger] counts@[i]).0 != (#[trigger] counts@[j]).0 by {
                            assert(before[i].0 != before[j].0);
                        }
                        assert forall|i: int| 0 <= i < counts@.len() implies old(
                            self,
                        )@.healthy.contains((#[trigger] counts@[i]).0) by {
                            assert(old(self)@.healthy.contains(before[i].0));
                        }
                    }
                }
                self.counts = counts;
                None
            },
            _ => {
                self.errors = count_up(self.errors);
                None
            },
        }
    }

    /// The outcome of the redistribution, given the cluster as it is now.
    pub fn result(&self, store: &ShardedObjectStore) -> (r: RedistributeResult)
        ensures
            r.moved == self@.moved,
            r.skipped == self@.skipped,
            r.errors == self@.errors,
            r.shard_counts@ == balance::object_counts(store@),
    {
        RedistributeResult {
            moved: self.moved,
            skipped: self.skipped,
            errors: self.errors,
            shard_counts: store.shard_object_counts(),
        }
    }
}

fn move_count(counts: &Vec<(ShardId, usize)>, from: ShardId, to: ShardId) -> (r: Vec<
    (ShardId, usize),
>)
    ensures
        r@ == object_moved(counts@, from, to),
{
    let mut r: Vec<(ShardId, usize)> = Vec::new();
    let mut i: usize = 0;
    while i < counts.len()
        invariant
            i <= counts.len(),
            r@ == object_moved(counts@, from, to).take(i as int),
        decreases counts.len() - i,
    {
        let (id, n) = counts[i];
        let mut m: usize = n;
        if id == from && m > 0 {
            m = m - 1;
        }
        if id == to {
            m = count_up(m);
        }
        r.push((id, m));
        assert(r@ =~= object_moved(counts@, from, to).take(i + 1));
        i = i + 1;
    }
    assert(object_moved(counts@, from, to).take(i as int) =~= object_moved(counts@, from, to));
    r
}

// -- Laws -------------------------------------------------------------------

proof fn lemma_moved_copies(healthy: Seq<usize>, held: Seq<usize>, from: usize, to: usize)
    requires
        !held.contains(to),
        healthy.contains(to),
        from != to,
    ensures
        balance::copies(ids::without(held.push(to), from), sound(healthy, None))
            == balance::copies(held, sound(healthy, Some(from))) + 1,
        balance::copies(held.push(to), sound(healthy, None)) >= balance::copies(
            held,
            sound(healthy, Some(from)),
        ) + 1,
{
    let all = sound(healthy, None);
    lemma_filter_twice(held, from, healthy);
    assert(ids::without(held.push(to), from) == ids::without(held, from).push(to)) by {
        reveal(Seq::filter);
        assert(held.push(to).drop_last() =~= held);
    }
    ids::without(held, from).lemma_filter_push(to, all);
    held.lemma_filter_push(to, all);
    lemma_filter_more(held, from, healthy);
}

proof fn lemma_filter_twice(held: Seq<usize>, from: usize, healthy: Seq<usize>)
    ensures
        ids::without(held, from).filter(sound(healthy, None)) == held.filter(
            sound(healthy, Some(from)),
        ),
    decreases held.len(),
{
    reveal(Seq::filter);
    if held.len() > 0 {
        let head = held.drop_last();
        lemma_filter_twice(head, from, healthy);
        if held.last() != from {
            assert(ids::without(held, from) == ids::without(head, from).push(held.last()));
            ids::without(head, from).lemma_filter_push(held.last(), sound(healthy, None));
        } else {
            assert(ids::without(held, from) == ids::without(head, from));
        }
    }
}

proof fn lemma_filter_more(held: Seq<usize>, from: usize, healthy: Seq<usize>)
    ensures
        held.filter(sound(healthy, Some(from))).len() <= held.filter(sound(healthy, None)).len(),
    decreases held.len(),
{
    reveal(Seq::filter);
    if held.len() > 0 {
        lemma_filter_more(held.drop_last(), from, healthy);
    }
}

proof fn lemma_first_movable(
    c: store::ClusterState,
    s: RedistributeState,
    keys: Seq<Seq<char>>,
    from: usize,
    to: usize,
)
    ensures
        first_movable(c, s, keys, from, to) matches Some(key) ==> keys.contains(key) && movable(
            s,
            c.entries[key].shards,
            from,
            to,
        ),
    decreases keys.len(),
{
    if keys.len() > 0 {
        lemma_first_movable(c, s, keys.drop_first(), from, to);
        assert(keys.contains(keys[0]));
        if let Some(key) = first_movable(c, s, keys.drop_first(), from, to) {
            let i = keys.drop_first().index_of(key);
            assert(keys[i + 1] == key);
        }
    }
}

/// An object that is moved never has too few copies on healthy shards: neither once it
/// has been copied nor once its old copy has been dropped.
pub proof fn a_move_never_drops_below_the_factor(
    c: store::ClusterState,
    s: RedistributeState,
    balanced: bool,
    size: u64,
    meta_len: u16,
    now: Timestamp,
)
    requires
        well_formed(s),
        c.entries.dom().finite(),
    ensures
        redistribute_next(c, s, balanced).1 matches StepSpec::Copy { key, from, to } ==> {
            let copied = scan::copied(c, key, to, size, meta_len, now);
            let dropped = scan::copy_removed(copied, key, from);
            &&& sound_copies(s, copied.entries[key].shards) >= s.rf
            &&& dropped.entries.contains_key(key)
            &&& sound_copies(s, dropped.entries[key].shards) >= s.rf
            &&& !dropped.entries[key].shards.contains(from)
        },
{
    if let StepSpec::Copy { key, from, to } = redistribute_next(c, s, balanced).1 {
        let counts = ranked(s.counts);
        ranking_orders_the_shards(s.counts);
        let n = counts.len() as int;
        assert(counts[0].0 != counts[n - 1].0);
        assert(counts.contains(counts[n - 1]));
        let m = s.counts.index_of(counts[n - 1]);
        assert(s.healthy.contains(s.counts[m].0));
        lemma_first_movable(c, s, catalog::keys_on_shard(c.entries, from), from, to);
        string_map::lemma_sorted_exists(c.entries.dom());
        catalog::lemma_filter_members(
            string_map::sorted(c.entries.dom()),
            |k: Seq<char>| c.entries[k].shards.contains(from),
        );
        assert(catalog::keys_on_shard(c.entries, from).contains(key));
        let held = c.entries[key].shards;
        assert(string_map::sorted(c.entries.dom()).contains(key));
        assert(string_map::sorted(c.entries.dom()).to_set().contains(key));
        assert(c.entries.contains_key(key));
        lemma_moved_copies(s.healthy, held, from, to);
        ids::lemma_without(held.push(to), from);
        let left = ids::without(held.push(to), from);
        assert(held.push(to)[held.len() as int] == to);
        assert(left.contains(to));
    }
}

/// Whether no shard holds more objects than this one.
pub open spec fn is_fullest(counts: Seq<(usize, usize)>, id: usize) -> bool {
    exists|i: int|
        0 <= i < counts.len() && (#[trigger] counts[i]).0 == id && forall|j: int|
            0 <= j < counts.len() ==> (#[trigger] counts[j]).1 <= counts[i].1
}

/// Whether no shard holds fewer objects than this one.
pub open spec fn is_emptiest(counts: Seq<(usize, usize)>, id: usize) -> bool {
    exists|i: int|
        0 <= i < counts.len() && (#[trigger] counts[i]).0 == id && forall|j: int|
            0 <= j < counts.len() ==> counts[i].1 <= (#[trigger] counts[j]).1
}

/// Whether a shard is another one that was healthy.
pub open spec fn elsewhere(s: RedistributeState, from: usize) -> spec_fn(usize) -> bool {
    |id: usize| id != from && s.healthy.contains(id)
}

/// Whether an object on one shard is missing on another and would keep, with a copy
/// there in place of the old one, as many copies on healthy shards as should be kept.
pub open spec fn can_move(
    c: store::ClusterState,
    s: RedistributeState,
    key: Seq<char>,
    from: usize,
    to: usize,
) -> bool {
    &&& c.entries.contains_key(key)
    &&& c.entries[key].shards.contains(from)
    &&& !c.entries[key].shards.contains(to)
    &&& c.entries[key].shards.filter(elsewhere(s, from)).len() + 1 >= s.rf
}

proof fn lemma_none_movable(
    c: store::ClusterState,
    s: RedistributeState,
    keys: Seq<Seq<char>>,
    from: usize,
    to: usize,
)
    ensures
        first_movable(c, s, keys, from, to) is None ==> forall|k: Seq<char>| #[trigger]
            keys.contains(k) ==> !movable(s, c.entries[k].shards, from, to),
    decreases keys.len(),
{
    if keys.len() > 0 && first_movable(c, s, keys, from, to) is None {
        lemma_none_movable(c, s, keys.drop_first(), from, to);
        assert forall|k: Seq<char>| #[trigger] keys.contains(k) implies !movable(
            s,
            c.entries[k].shards,
            from,
            to,
        ) by {
            let i = keys.index_of(k);
            if i > 0 {
                assert(keys.drop_first()[i - 1] == k);
                assert(keys.drop_first().contains(k));
            }
        }
    }
}

proof fn lemma_keys_on(entries: catalog::Entries, shard: usize)
    requires
        entries.dom().finite(),
    ensures
        forall|k: Seq<char>| #[trigger]
            catalog::keys_on_shard(entries, shard).contains(k) <==> entries.contains_key(k)
                && entries[k].shards.contains(shard),
{
    let all = string_map::sorted(entries.dom());
    let pred = |k: Seq<char>| entries[k].shards.contains(shard);
    string_map::lemma_sorted_exists(entries.dom());
    catalog::lemma_filter_members(all, pred);
    assert forall|k: Seq<char>| #[trigger]
        catalog::keys_on_shard(entries, shard).contains(k) <==> entries.contains_key(k)
            && entries[k].shards.contains(shard) by {
        assert(all.to_set().contains(k) <==> all.contains(k));
        if entries.contains_key(k) && entries[k].shards.contains(shard) {
            assert(entries.dom().contains(k));
            all.lemma_filter_contains(pred, all.index_of(k));
        }
    }
}

/// A redistribution takes from a fullest shard and gives to an emptiest one, which holds
/// at least two objects fewer, an object that can be moved between them.
pub proof fn a_move_goes_from_a_fullest_shard_to_an_emptiest(
    c: store::ClusterState,
    s: RedistributeState,
    balanced: bool,
)
    requires
        well_formed(s),
        c.entries.dom().finite(),
    ensures
        redistribute_next(c, s, balanced).1 matches StepSpec::Copy { key, from, to } ==> {
            &&& is_fullest(s.counts, from)
            &&& is_emptiest(s.counts, to)
            &&& forall|i: int, j: int|
                0 <= i < s.counts.len() && 0 <= j < s.counts.len() && (
                #[trigger] s.counts[i]).0 == from && (#[trigger] s.counts[j]).0 == to
                    ==> s.counts[i].1 > s.counts[j].1 + 1
            &&& can_move(c, s, key, from, to)
            &&& s.moved < s.batch_size
            &&& !balanced
        },
        redistribute_next(c, s, balanced).1 !is Remove,
{
    if let StepSpec::Copy { key, from, to } = redistribute_next(c, s, balanced).1 {
        lemma_ends(s.counts);
        lemma_keys_on(c.entries, from);
        lemma_first_movable(c, s, catalog::keys_on_shard(c.entries, from), from, to);
        assert(elsewhere(s, from) =~= sound(s.healthy, Some(from)));
    }
}

proof fn lemma_ends(counts: Seq<(usize, usize)>)
    requires
        counts.len() > 0,
        distinct(counts),
    ensures
        is_fullest(counts, ranked(counts)[0].0),
        is_emptiest(counts, ranked(counts).last().0),
        forall|i: int|
            0 <= i < counts.len() && (#[trigger] counts[i]).0 == ranked(counts)[0].0 ==> counts[i].1
                == ranked(counts)[0].1,
        forall|i: int|
            0 <= i < counts.len() && (#[trigger] counts[i]).0 == ranked(counts).last().0
                ==> counts[i].1 == ranked(counts).last().1,
        forall|i: int|
            0 <= i < counts.len() ==> ranked(counts).last().1 <= (#[trigger] counts[i]).1
                <= ranked(counts)[0].1,
{
    let r = ranked(counts);
    ranking_orders_the_shards(counts);
    let n = r.len() as int;
    assert(r.contains(r[0]));
    assert(r.contains(r[n - 1]));
    let a = counts.index_of(r[0]);
    let b = counts.index_of(r[n - 1]);
    assert forall|i: int| 0 <= i < counts.len() implies r.last().1 <= (#[trigger] counts[i]).1
        <= r[0].1 by {
        assert(counts.contains(counts[i]));
        assert(r.contains(counts[i]));
        let k = r.index_of(counts[i]);
        if k > 0 {
            assert(r[0].1 >= r[k].1);
        }
        if k < n - 1 {
            assert(r[k].1 >= r[n - 1].1);
        }
    }
    assert(counts[a] == r[0] && counts[b] == r[n - 1]);
    assert forall|i: int| 0 <= i < counts.len() && (#[trigger] counts[i]).0
        == r[0].0 implies counts[i].1 == r[0].1 by {
        if i < a {
            assert(counts[i].0 != counts[a].0);
        } else if a < i {
            assert(counts[a].0 != counts[i].0);
        }
    }
    assert forall|i: int| 0 <= i < counts.len() && (#[trigger] counts[i]).0
        == r.last().0 implies counts[i].1 == r.last().1 by {
        if i < b {
            assert(counts[i].0 != counts[b].0);
        } else if b < i {
            assert(counts[b].0 != counts[i].0);
        }
    }
}

/// A redistribution does not end early: as long as the batch is not used up, the shards
/// are not balanced well enough, some shard holds at least two objects more than
/// another, and every fullest shard has an object that can be moved to every emptiest
/// one, an object is moved.
pub proof fn a_redistribution_goes_on_while_it_can(
    c: store::ClusterState,
    s: RedistributeState,
    i: int,
    j: int,
)
    requires
        well_formed(s),
        c.entries.dom().finite(),
        s.moved < s.batch_size,
        0 <= i < s.counts.len(),
        0 <= j < s.counts.len(),
        s.counts[i].1 > s.counts[j].1 + 1,
        forall|from: usize, to: usize| #[trigger]
            is_fullest(s.counts, from) && #[trigger] is_emptiest(s.counts, to)
                ==> exists|key: Seq<char>| can_move(c, s, key, from, to),
    ensures
        redistribute_next(c, s, false).1 is Copy,
{
    lemma_ends(s.counts);
    let from = ranked(s.counts)[0].0;
    let to = ranked(s.counts).last().0;
    let key = choose|key: Seq<char>| can_move(c, s, key, from, to);
    lemma_keys_on(c.entries, from);
    lemma_none_movable(c, s, catalog::keys_on_shard(c.entries, from), from, to);
    assert(catalog::keys_on_shard(c.entries, from).contains(key));
    assert(elsewhere(s, from) =~= sound(s.healthy, Some(from)));
}

proof fn lemma_place(counts: Seq<(usize, usize)>, x: (usize, usize)) -> (p: int)
    requires
        descending(counts),
    ensures
        0 <= p <= counts.len(),
        ranked_in(counts, x) == counts.insert(p, x),
        forall|k: int| p <= k < counts.len() ==> (#[trigger] counts[k]).1 < x.1,
    decreases counts.len(),
{
    if counts.len() > 0 && counts.last().1 < x.1 {
        let head = counts.drop_last();
        assert(descending(head));
        let p = lemma_place(head, x);
        assert(head.insert(p, x).push(counts.last()) =~= counts.insert(p, x));
        assert forall|k: int| p <= k < counts.len() implies (#[trigger] counts[k]).1 < x.1 by {
            if k < head.len() {
                assert(head[k] == counts[k]);
            }
        }
        p
    } else {
        assert(counts.push(x) =~= counts.insert(counts.len() as int, x));
        counts.len() as int
    }
}

/// Ranking keeps shards that hold the same number of objects in their order.
pub proof fn ranking_keeps_ties_in_order(counts: Seq<(usize, usize)>, a: int, b: int)
    requires
        0 <= a < b < ranked(counts).len(),
        ranked(counts)[a].1 == ranked(counts)[b].1,
    ensures
        exists|i: int, j: int|
            0 <= i < j < counts.len() && #[trigger] counts[i] == ranked(counts)[a]
                && #[trigger] counts[j] == ranked(counts)[b],
    decreases counts.len(),
{
    if counts.len() > 0 {
        let head = counts.drop_last();
        let x = counts.last();
        let h = ranked(head);
        ranking_orders_the_shards(head);
        let p = lemma_place(h, x);
        let r = ranked(counts);
        let a0 = if a < p {
            a
        } else {
            a - 1
        };
        let b0 = if b < p {
            b
        } else {
            b - 1
        };
        if b == p {
            assert(r[a] == h[a]);
            assert(h.contains(h[a]));
            let i = head.index_of(h[a]);
            let j = counts.len() - 1;
            assert(counts[i] == r[a] && counts[j] == r[b]);
        } else if a == p {
            assert(r[b] == h[b0]);
            assert(h[b0].1 < x.1);
        } else {
            assert(r[a] == h[a0] && r[b] == h[b0]);
            ranking_keeps_ties_in_order(head, a0, b0);
            let (i, j) = choose|i: int, j: int|
                0 <= i < j < head.len() && #[trigger] head[i] == h[a0] && #[trigger] head[j]
                    == h[b0];
            assert(counts[i] == r[a] && counts[j] == r[b]);
        }
    }
}

/// There is nothing to redistribute exactly if some object has too few copies, if fewer
/// than two shards are healthy, or if these hold nothing. Otherwise it goes by the
/// objects on each healthy shard.
pub proof fn a_redistribution_begins_unless_something_is_amiss(
    c: store::ClusterState,
    batch_size: nat,
)
    ensures
        ({
            let counts = balance::object_counts(c);
            &&& redistribute_begun(c, batch_size) is Some <==> balance::under_replicated(c).len()
                == 0 && counts.len() >= 2 && exists|i: int|
                0 <= i < counts.len() && (#[trigger] counts[i]).1 > 0
            &&& redistribute_begun(c, batch_size) matches Some(s) ==> {
                &&& s.counts == counts && s.rf == c.rf && s.batch_size == batch_size
                &&& s.moved == 0 && s.skipped == 0 && s.errors == 0
                &&& s.healthy.len() == counts.len()
                &&& forall|i: int|
                    0 <= i < counts.len() ==> #[trigger] s.healthy[i] == counts[i].0
            }
        }),
{
}

/// An object that was copied is listed on its new shard. It is dropped from the old one
/// exactly if it then has enough copies on shards that were healthy. When that is done
/// it is listed there no more, and one object less is counted there and one more on the
/// new shard. A step that failed changes nothing but the count of errors.
pub proof fn a_move_drops_the_old_copy_when_enough_are_in_place(
    c: store::ClusterState,
    s: RedistributeState,
    key: Seq<char>,
    from: usize,
    to: usize,
    size: u64,
    meta_len: Option<usize>,
    now: Timestamp,
)
    requires
        c.entries.contains_key(key),
        from != to,
        s.moved < usize::MAX,
        s.skipped < usize::MAX,
        s.errors < usize::MAX,
    ensures
        ({
            let copy = StepSpec::Copy { key, from, to };
            let remove = StepSpec::Remove { key, from, to };
            let (made, m, follow) = redistribute_reported(
                c,
                s,
                copy,
                SweepOutcome::Copied { size, meta_len },
                now,
            );
            let (gone, g, none) = redistribute_reported(c, s, remove, SweepOutcome::Trimmed, now);
            let sound = |id: usize| s.healthy.contains(id);
            let enough = made.entries[key].shards.filter(sound).len() >= s.rf;
            &&& made.entries.contains_key(key) && made.entries[key].shards.contains(to)
            &&& follow == if enough {
                Some(remove)
            } else {
                None
            }
            &&& m == if enough {
                s
            } else {
                RedistributeState { skipped: (s.skipped + 1) as usize, ..s }
            }
            &&& gone.entries.contains_key(key) ==> !gone.entries[key].shards.contains(from)
            &&& none is None && g.moved == s.moved + 1 && g.skipped == s.skipped && g.errors
                == s.errors
            &&& g.counts.len() == s.counts.len()
            &&& forall|i: int|
                0 <= i < s.counts.len() ==> (#[trigger] g.counts[i]).0 == s.counts[i].0 && (
                s.counts[i].0 == from && s.counts[i].1 > 0 ==> g.counts[i].1 == s.counts[i].1 - 1)
                    && (s.counts[i].0 == to && s.counts[i].1 < usize::MAX ==> g.counts[i].1
                    == s.counts[i].1 + 1) && (s.counts[i].0 != from && s.counts[i].0 != to
                    ==> g.counts[i].1 == s.counts[i].1)
            &&& redistribute_reported(c, s, copy, SweepOutcome::Failed, now) == (
                c,
                RedistributeState { errors: (s.errors + 1) as usize, ..s },
                None::<StepSpec>,
            )
            &&& redistribute_reported(c, s, remove, SweepOutcome::Failed, now) == (
                c,
                RedistributeState { errors: (s.errors + 1) as usize, ..s },
                None::<StepSpec>,
            )
        }),
{
    catalog::a_replica_that_was_found_is_listed(
        c.entries,
        key,
        to,
        size,
        repair::recorded_len(meta_len),
        now,
    );
    catalog::a_shard_that_is_taken_out_is_gone_alone(c.entries, key, from);
    assert((|id: usize| s.healthy.contains(id)) =~= sound(s.healthy, None));
}

/// The objects of all shards are those of each of them, together.
pub proof fn the_total_is_that_of_each_shard(counts: Seq<(usize, usize)>, id: usize, n: usize)
    ensures
        total_of(Seq::empty()) == 0,
        total_of(counts.push((id, n))) == total_of(counts) + n,
{
    assert(counts.push((id, n)).drop_last() =~= counts);
}

} // verus!
