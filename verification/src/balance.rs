//! Which objects have too few or too many copies, and where to add or drop one.

use vstd::prelude::*;
use vstd::string::*;
use crate::catalog;
use crate::ids;
use crate::ids::{has_id, ShardId};
use crate::placement;
use crate::store;
use crate::store::{ShardHealth, ShardInfo, ShardedObjectStore};
use crate::string_map;

verus! {

/// Whether a shard is healthy.
pub open spec fn is_healthy(shards: Seq<ShardInfo>, id: usize) -> bool {
    id < shards.len() && shards[id as int].health == ShardHealth::Healthy
}

/// Whether a copy on a shard counts as one that is there: the shard is healthy, or
/// is being synced. What lies on a degraded shard may be corrupt.
pub open spec fn is_live(shards: Seq<ShardInfo>, id: usize) -> bool {
    is_healthy(shards, id) || (id < shards.len() && shards[id as int].health
        == ShardHealth::Syncing)
}

/// The number of copies on shards of a kind.
pub open spec fn copies(ids: Seq<usize>, on: spec_fn(usize) -> bool) -> nat {
    ids.filter(on).len()
}

/// The copies of an object that are there.
pub open spec fn live_copies(c: store::ClusterState, key: Seq<char>) -> nat {
    copies(c.entries[key].shards, |id: usize| is_live(c.shards, id))
}

/// The copies of an object on shards that take writes, and so can be read.
pub open spec fn usable_copies(c: store::ClusterState, key: Seq<char>) -> nat {
    copies(c.entries[key].shards, |id: usize| placement::takes_writes(c.shards, id))
}

/// The keys of the catalog, in ascending order.
pub open spec fn keys_of(c: store::ClusterState) -> Seq<Seq<char>> {
    string_map::sorted(c.entries.dom())
}

/// The objects that have fewer copies than should be kept.
pub open spec fn under_replicated(c: store::ClusterState) -> Seq<Seq<char>> {
    keys_of(c).filter(|k: Seq<char>| live_copies(c, k) < c.rf)
}

/// The objects that have more copies than should be kept.
pub open spec fn over_replicated(c: store::ClusterState) -> Seq<Seq<char>> {
    keys_of(c).filter(|k: Seq<char>| usable_copies(c, k) > c.rf)
}

/// Keys with numbers.
pub open spec fn count_views(v: Seq<(String, usize)>) -> Seq<(Seq<char>, nat)> {
    Seq::new(v.len(), |i: int| (v[i].0@, v[i].1 as nat))
}

/// Keys with a number for each.
pub open spec fn counted(keys: Seq<Seq<char>>, count: spec_fn(Seq<char>) -> nat) -> Seq<
    (Seq<char>, nat),
> {
    Seq::new(keys.len(), |i: int| (keys[i], count(keys[i])))
}

/// Which copies to count.
#[derive(Clone, Copy, Debug, PartialEq, Eq, Structural)]
enum Counting {
    Live,
    Usable,
    Healthy,
}

spec fn counts(shards: Seq<ShardInfo>, what: Counting, id: usize) -> bool {
    match what {
        Counting::Live => is_live(shards, id),
        Counting::Usable => placement::takes_writes(shards, id),
        Counting::Healthy => is_healthy(shards, id),
    }
}

/// Counts the copies on shards of a kind.
fn count_copies(shards: &Vec<ShardInfo>, held: &[ShardId], what: Counting) -> (n: usize)
    ensures
        n == copies(held@, |id: usize| counts(shards@, what, id)),
{
    let ghost pred = |id: usize| counts(shards@, what, id);
    let mut n: usize = 0;
    let mut i: usize = 0;
    proof {
        placement::lemma_filter_none(held@, pred);
    }
    while i < held.len()
        invariant
            i <= held.len(),
            n <= i,
            pred == (|id: usize| counts(shards@, what, id)),
            n == held@.take(i as int).filter(pred).len(),
        decreases held.len() - i,
    {
        proof {
            placement::lemma_filter_step(held@, i as int, pred);
        }
        let id: usize = held[i];
        if id < shards.len() {
            let health = shards[id].health;
            let hit = match what {
                Counting::Live => health == ShardHealth::Healthy || health == ShardHealth::Syncing,
                Counting::Usable => health.is_writable(),
                Counting::Healthy => health == ShardHealth::Healthy,
            };
            if hit {
                n = n + 1;
            }
        }
        i = i + 1;
    }
    assert(held@.take(i as int) =~= held@);
    n
}

impl ShardedObjectStore {
    /// The number of copies that are there, of some.
    pub(crate) fn count_live(&self, held: &[ShardId]) -> (n: usize)
        ensures
            n == copies(held@, |id: usize| is_live(self@.shards, id)),
    {
        proof {
            assert((|id: usize| counts(self@.shards, Counting::Live, id)) =~= (|id: usize|
                is_live(self@.shards, id)));
        }
        count_copies(self.shards(), held, Counting::Live)
    }

    /// The number of copies on shards that take writes, of some.
    pub(crate) fn count_usable(&self, held: &[ShardId]) -> (n: usize)
        ensures
            n == copies(held@, |id: usize| placement::takes_writes(self@.shards, id)),
    {
        proof {
            assert((|id: usize| counts(self@.shards, Counting::Usable, id)) =~= (|id: usize|
                placement::takes_writes(self@.shards, id)));
        }
        count_copies(self.shards(), held, Counting::Usable)
    }

    /// The objects that have fewer copies than should be kept, with the number of
    /// copies that count, in the order of their keys.
    pub fn find_under_replicated(&self) -> (r: Vec<(String, usize)>)
        ensures
            count_views(r@) == counted(
                under_replicated(self@),
                |k: Seq<char>| live_copies(self@, k),
            ),
    {
        let rf: usize = self.replication_factor();
        let map = self.catalog().with_entries();
        let n: usize = map.len();
        let ghost c = self@;
        let ghost keys = keys_of(c);
        let ghost wanted = |k: Seq<char>| live_copies(c, k) < c.rf;
        let ghost number = |k: Seq<char>| live_copies(c, k);
        let mut r: Vec<(String, usize)> = Vec::new();
        let mut i: usize = 0;
        proof {
            placement::lemma_filter_none(keys, wanted);
            assert(count_views(r@) =~= counted(keys.take(0).filter(wanted), number));
        }
        while i < n
            invariant
                i <= n,
                c == self@,
                rf == c.rf,
                map@ == c.entries,
                keys == keys_of(c),
                n == keys.len(),
                wanted == (|k: Seq<char>| live_copies(c, k) < c.rf),
                number == (|k: Seq<char>| live_copies(c, k)),
                count_views(r@) == counted(keys.take(i as int).filter(wanted), number),
            decreases n - i,
        {
            let key = map.key_at(i);
            let entry = map.value_at(i);
            proof {
                placement::lemma_filter_step(keys, i as int, wanted);
            }
            let live: usize = count_copies(self.shards(), entry.shards.as_slice(), Counting::Live);
            proof {
                assert((|id: usize| counts(c.shards, Counting::Live, id)) =~= (|id: usize|
                    is_live(c.shards, id)));
            }
            if live < rf {
                let ghost before = r@;
                r.push((key.clone(), live));
                assert(count_views(r@) =~= count_views(before).push((key@, live as nat)));
                assert(count_views(r@) =~= counted(keys.take(i + 1).filter(wanted), number));
            }
            i = i + 1;
        }
        assert(keys.take(n as int) =~= keys);
        r
    }

    /// The objects that have more copies than should be kept, with the number of
    /// copies that can be used, in the order of their keys. Copies on shards that
    /// are offline or syncing do not count.
    pub fn find_over_replicated(&self) -> (r: Vec<(String, usize)>)
        ensures
            count_views(r@) == counted(
                over_replicated(self@),
                |k: Seq<char>| usable_copies(self@, k),
            ),
    {
        let rf: usize = self.replication_factor();
        let map = self.catalog().with_entries();
        let n: usize = map.len();
        let ghost c = self@;
        let ghost keys = keys_of(c);
        let ghost wanted = |k: Seq<char>| usable_copies(c, k) > c.rf;
        let ghost number = |k: Seq<char>| usable_copies(c, k);
        let mut r: Vec<(String, usize)> = Vec::new();
        let mut i: usize = 0;
        proof {
            placement::lemma_filter_none(keys, wanted);
            assert(count_views(r@) =~= counted(keys.take(0).filter(wanted), number));
        }
        while i < n
            invariant
                i <= n,
                c == self@,
                rf == c.rf,
                map@ == c.entries,
                keys == keys_of(c),
                n == keys.len(),
                wanted == (|k: Seq<char>| usable_copies(c, k) > c.rf),
                number == (|k: Seq<char>| usable_copies(c, k)),
                count_views(r@) == counted(keys.take(i as int).filter(wanted), number),
            decreases n - i,
        {
            let key = map.key_at(i);
            let entry = map.value_at(i);
            proof {
                placement::lemma_filter_step(keys, i as int, wanted);
            }
            let usable: usize = count_copies(
                self.shards(),
                entry.shards.as_slice(),
                Counting::Usable,
            );
            proof {
                assert((|id: usize| counts(c.shards, Counting::Usable, id)) =~= (|id: usize|
                    placement::takes_writes(c.shards, id)));
            }
            if usable > rf {
                let ghost before = r@;
                r.push((key.clone(), usable));
                assert(count_views(r@) =~= count_views(before).push((key@, usable as nat)));
                assert(count_views(r@) =~= counted(keys.take(i + 1).filter(wanted), number));
            }
            i = i + 1;
        }
        assert(keys.take(n as int) =~= keys);
        r
    }
}

// -- Where to add a copy ----------------------------------------------------

/// The shards that hold an object.
pub open spec fn holders(c: store::ClusterState, key: Seq<char>) -> Seq<usize> {
    if c.entries.contains_key(key) {
        c.entries[key].shards
    } else {
        Seq::empty()
    }
}

/// Whether a copy of an object can be added on a shard.
pub open spec fn can_receive(c: store::ClusterState, key: Seq<char>, id: usize) -> bool {
    is_healthy(c.shards, id) && !holders(c, key).contains(id)
}

/// The shard on which to add a copy: of those that can receive it, one with the most
/// free space; the last of these.
pub open spec fn best_target(c: store::ClusterState, key: Seq<char>, id: usize) -> bool {
    &&& can_receive(c, key, id)
    &&& forall|other: usize| #[trigger]
        can_receive(c, key, other) ==> c.shards[other as int].free_space
            < c.shards[id as int].free_space || (c.shards[other as int].free_space
            == c.shards[id as int].free_space && other <= id)
}

/// The shard on which to add a copy, if there is one.
pub open spec fn replication_target(c: store::ClusterState, key: Seq<char>) -> Option<usize> {
    if exists|id: usize| best_target(c, key, id) {
        Some(choose|id: usize| best_target(c, key, id))
    } else {
        None
    }
}

pub proof fn lemma_target(c: store::ClusterState, key: Seq<char>, id: usize)
    requires
        best_target(c, key, id),
    ensures
        replication_target(c, key) == Some(id),
{
    let other = choose|other: usize| best_target(c, key, other);
    assert(can_receive(c, key, id) && can_receive(c, key, other));
}

impl ShardedObjectStore {
    /// The shard on which to add a copy of an object, so that space use stays
    /// balanced; none if no healthy shard is without one.
    pub fn find_replication_target(&self, key: &str) -> (r: Option<ShardId>)
        ensures
            match r {
                Some(id) => best_target(self@, key@, id),
                None => forall|id: usize| !can_receive(self@, key@, id),
            },
            r == replication_target(self@, key@),
    {
        let existing: Vec<ShardId> = match self.catalog().get(key) {
            Some(e) => e.shards,
            None => Vec::new(),
        };
        let shards = self.shards();
        let ghost c = self@;
        assert(existing@ =~= holders(c, key@));
        let mut best: Option<ShardId> = None;
        let mut id: usize = 0;
        while id < shards.len()
            invariant
                id <= shards.len(),
                c == self@,
                shards@ == c.shards,
                existing@ == holders(c, key@),
                match best {
                    Some(b) => {
                        &&& b < id
                        &&& can_receive(c, key@, b)
                        &&& forall|other: usize|
                            other < id && #[trigger] can_receive(c, key@, other)
                                ==> c.shards[other as int].free_space
                                < c.shards[b as int].free_space || (
                            c.shards[other as int].free_space == c.shards[b as int].free_space
                                && other <= b)
                    },
                    None => forall|other: usize|
                        other < id ==> !can_receive(c, key@, other),
                },
            decreases shards.len() - id,
        {
            if shards[id].health == ShardHealth::Healthy && !has_id(existing.as_slice(), id) {
                assert(can_receive(c, key@, id));
                match best {
                    Some(b) => {
                        if shards[id].free_space >= shards[b].free_space {
                            best = Some(id);
                        }
                    },
                    None => {
                        best = Some(id);
                    },
                }
            }
            id = id + 1;
        }
        proof {
            if let Some(b) = best {
                lemma_target(c, key@, b);
            }
        }
        best
    }
}

// -- Where to drop a copy ---------------------------------------------------

/// Whether the copy at a position of an entry can be dropped: it is on a healthy
/// shard, and as many copies as should be kept are on other healthy shards.
pub open spec fn can_drop(shards: Seq<ShardInfo>, rf: nat, held: Seq<usize>, i: int) -> bool {
    &&& 0 <= i < held.len()
    &&& is_healthy(shards, held[i])
    &&& copies(ids::without(held, held[i]), |id: usize| is_healthy(shards, id)) >= rf
}

/// The position of the copy to drop: of those that can be dropped, one on a shard
/// with the least free space; the first of these.
pub open spec fn best_drop(shards: Seq<ShardInfo>, rf: nat, held: Seq<usize>, i: int) -> bool {
    &&& can_drop(shards, rf, held, i)
    &&& forall|j: int| #[trigger]
        can_drop(shards, rf, held, j) ==> shards[held[j] as int].free_space
            > shards[held[i] as int].free_space || (shards[held[j] as int].free_space
            == shards[held[i] as int].free_space && i <= j)
}

/// The shard from which to drop a copy.
pub open spec fn excess_shard(c: store::ClusterState, key: Seq<char>, id: usize) -> bool {
    &&& c.entries.contains_key(key)
    &&& c.entries[key].shards.len() > c.rf
    &&& exists|i: int|
        #[trigger] best_drop(c.shards, c.rf, c.entries[key].shards, i) && id
            == c.entries[key].shards[i]
}

/// Whether no copy of an object can be dropped.
pub open spec fn no_excess(c: store::ClusterState, key: Seq<char>) -> bool {
    c.entries.contains_key(key) && c.entries[key].shards.len() > c.rf ==> forall|i: int|
        !can_drop(c.shards, c.rf, c.entries[key].shards, i)
}

/// The shard from which to drop a copy, if there is one.
pub open spec fn excess_of(c: store::ClusterState, key: Seq<char>) -> Option<usize> {
    if exists|id: usize| excess_shard(c, key, id) {
        Some(choose|id: usize| excess_shard(c, key, id))
    } else {
        None
    }
}

pub proof fn lemma_excess(c: store::ClusterState, key: Seq<char>, id: usize)
    requires
        excess_shard(c, key, id),
    ensures
        excess_of(c, key) == Some(id),
{
    let other = choose|other: usize| excess_shard(c, key, other);
    let held = c.entries[key].shards;
    let i = choose|i: int| #[trigger] best_drop(c.shards, c.rf, held, i) && id == held[i];
    let j = choose|j: int| #[trigger] best_drop(c.shards, c.rf, held, j) && other == held[j];
    assert(can_drop(c.shards, c.rf, held, i) && can_drop(c.shards, c.rf, held, j));
}

impl ShardedObjectStore {
    /// The shard from which to drop a copy of an object that has too many: the
    /// fullest of the healthy ones that can do without. None if there are not too
    /// many, or if no copy can be dropped.
    pub fn pick_excess_shard(&self, key: &str) -> (r: Option<ShardId>)
        ensures
            match r {
                Some(id) => excess_shard(self@, key@, id),
                None => no_excess(self@, key@),
            },
            r == excess_of(self@, key@),
    {
        let rf: usize = self.replication_factor();
        let entry = match self.catalog().get(key) {
            Some(e) => e,
            None => {
                return None;
            },
        };
        if entry.shards.len() <= rf {
            return None;
        }
        let shards = self.shards();
        let ghost c = self@;
        let ghost held = entry.shards@;
        let mut best: Option<usize> = None;
        let mut i: usize = 0;
        while i < entry.shards.len()
            invariant
                i <= entry.shards.len(),
                c == self@,
                shards@ == c.shards,
                held == entry.shards@,
                rf == c.rf,
                match best {
                    Some(b) => {
                        &&& b < i
                        &&& can_drop(c.shards, c.rf, held, b as int)
                        &&& forall|j: int|
                            j < i && #[trigger] can_drop(c.shards, c.rf, held, j)
                                ==> c.shards[held[j] as int].free_space
                                > c.shards[held[b as int] as int].free_space || (
                            c.shards[held[j] as int].free_space
                                == c.shards[held[b as int] as int].free_space && b <= j)
                    },
                    None => forall|j: int| j < i ==> !can_drop(c.shards, c.rf, held, j),
                },
            decreases entry.shards.len() - i,
        {
            let id: usize = entry.shards[i];
            if id < shards.len() && shards[id].health == ShardHealth::Healthy {
                let others = ids::drop_id(entry.shards.as_slice(), id);
                let left: usize = count_copies(shards, others.as_slice(), Counting::Healthy);
                proof {
                    assert((|id: usize| counts(c.shards, Counting::Healthy, id)) =~= (|id: usize|
                        is_healthy(c.shards, id)));
                }
                if left >= rf {
                    assert(can_drop(c.shards, c.rf, held, i as int));
                    match best {
                        Some(b) => {
                            if shards[id].free_space < shards[entry.shards[b]].free_space {
                                best = Some(i);
                            }
                        },
                        None => {
                            best = Some(i);
                        },
                    }
                }
            }
            i = i + 1;
        }
        match best {
            Some(b) => {
                assert(best_drop(c.shards, c.rf, held, b as int));
                proof {
                    lemma_excess(c, key@, held[b as int]);
                }
                Some(entry.shards[b])
            },
            None => {
                assert forall|id: usize| !excess_shard(c, key@, id) by {
                    if excess_shard(c, key@, id) {
                        let j = choose|j: int| #[trigger]
                            best_drop(c.shards, c.rf, held, j) && id == held[j];
                        assert(can_drop(c.shards, c.rf, held, j));
                    }
                }
                None
            },
        }
    }
}

/// Dropping the copy that was picked leaves as many copies on healthy shards as
/// should be kept, and leaves the entry in the catalog.
pub proof fn dropping_an_excess_copy_keeps_enough(c: store::ClusterState, key: Seq<char>, id: usize)
    requires
        excess_shard(c, key, id),
        c.rf >= 1,
    ensures
        catalog::shard_removed(c.entries, key, id).contains_key(key),
        copies(
            catalog::shard_removed(c.entries, key, id)[key].shards,
            |s: usize| is_healthy(c.shards, s),
        ) >= c.rf,
        !catalog::shard_removed(c.entries, key, id)[key].shards.contains(id),
{
    let held = c.entries[key].shards;
    let i = choose|i: int| #[trigger] best_drop(c.shards, c.rf, held, i) && id == held[i];
    let left = ids::without(held, id);
    left.lemma_filter_len(|s: usize| is_healthy(c.shards, s));
    ids::lemma_without(held, id);
}

/// Adding a copy on the shard that was found gives the object one more live copy.
pub proof fn adding_a_copy_on_the_target_gives_one_more(
    c: store::ClusterState,
    key: Seq<char>,
    id: usize,
    size: u64,
    meta_len: u16,
    now: crate::time::Timestamp,
)
    requires
        best_target(c, key, id),
        c.entries.contains_key(key),
    ensures
        live_copies(
            store::ClusterState {
                entries: catalog::replica_added(c.entries, key, id, size, meta_len, now),
                ..c
            },
            key,
        ) == live_copies(c, key) + 1,
{
    let held = c.entries[key].shards;
    let live = |s: usize| is_live(c.shards, s);
    held.lemma_filter_push(id, live);
    let after = store::ClusterState {
        entries: catalog::replica_added(c.entries, key, id, size, meta_len, now),
        ..c
    };
    assert(after.entries[key].shards == held.push(id));
    assert((|s: usize| is_live(after.shards, s)) =~= live);
}

/// Of shards of a narrower kind there are no more.
pub proof fn lemma_copies_narrower(
    held: Seq<usize>,
    narrow: spec_fn(usize) -> bool,
    wide: spec_fn(usize) -> bool,
)
    requires
        forall|id: usize| #[trigger] narrow(id) ==> wide(id),
    ensures
        copies(held, narrow) <= copies(held, wide),
    decreases held.len(),
{
    reveal(Seq::filter);
    if held.len() > 0 {
        lemma_copies_narrower(held.drop_last(), narrow, wide);
    }
}

/// Taking a shard of a kind out leaves fewer of that kind.
pub proof fn lemma_copies_without(held: Seq<usize>, id: usize, on: spec_fn(usize) -> bool)
    ensures
        copies(ids::without(held, id), on) <= copies(held, on),
        held.contains(id) && on(id) ==> copies(ids::without(held, id), on) < copies(held, on),
    decreases held.len(),
{
    reveal(Seq::filter);
    if held.len() > 0 {
        let head = held.drop_last();
        lemma_copies_without(head, id, on);
        if held.last() != id {
            assert(ids::without(held, id) =~= ids::without(head, id).push(held.last()));
            ids::without(head, id).lemma_filter_push(held.last(), on);
            if held.contains(id) {
                let i = held.index_of(id);
                assert(head[i] == id);
            }
        } else {
            assert(ids::without(held, id) =~= ids::without(head, id));
        }
    }
}

/// A copy can be dropped only of an object that has too many.
pub proof fn only_an_object_with_too_many_copies_has_an_excess_copy(
    c: store::ClusterState,
    key: Seq<char>,
)
    ensures
        excess_of(c, key) is Some ==> c.entries.contains_key(key) && usable_copies(c, key) > c.rf,
{
    if let Some(id) = excess_of(c, key) {
        assert(excess_shard(c, key, id));
        let held = c.entries[key].shards;
        let healthy = |s: usize| is_healthy(c.shards, s);
        lemma_copies_without(held, id, healthy);
        lemma_copies_narrower(held, healthy, |s: usize| placement::takes_writes(c.shards, s));
    }
}

/// Where to add and where to drop a copy of an object rests on the shards, the number
/// of copies to keep and the shards that hold the object.
pub proof fn lemma_same_holders(c: store::ClusterState, d: store::ClusterState, key: Seq<char>)
    requires
        c.shards == d.shards,
        c.rf == d.rf,
        c.entries.contains_key(key) == d.entries.contains_key(key),
        c.entries.contains_key(key) ==> c.entries[key].shards == d.entries[key].shards,
    ensures
        c.entries.contains_key(key) ==> live_copies(c, key) == live_copies(d, key),
        c.entries.contains_key(key) ==> usable_copies(c, key) == usable_copies(d, key),
        replication_target(c, key) == replication_target(d, key),
        excess_of(c, key) == excess_of(d, key),
{
    assert((|id: usize| is_live(c.shards, id)) =~= (|id: usize| is_live(d.shards, id)));
    assert((|id: usize| placement::takes_writes(c.shards, id)) =~= (|id: usize|
        placement::takes_writes(d.shards, id)));
    assert forall|id: usize| best_target(c, key, id) == best_target(d, key, id) by {
        assert(forall|other: usize| can_receive(c, key, other) == can_receive(d, key, other));
    }
    if let Some(id) = replication_target(c, key) {
        lemma_target(d, key, id);
    }
    assert forall|id: usize| excess_shard(c, key, id) == excess_shard(d, key, id) by {}
    if let Some(id) = excess_of(c, key) {
        lemma_excess(d, key, id);
    }
}

// -- How full the shards are ------------------------------------------------

/// How often an entry names a shard.
pub open spec fn occurrences(held: Seq<usize>, id: usize) -> nat {
    copies(held, same_as(id))
}

/// Being a given shard.
pub open spec fn same_as(id: usize) -> spec_fn(usize) -> bool {
    |x: usize| x == id
}

/// How many copies the entries of some keys place on a shard.
pub open spec fn stored_on(entries: catalog::Entries, keys: Seq<Seq<char>>, id: usize) -> nat
    decreases keys.len(),
{
    if keys.len() == 0 {
        0
    } else {
        stored_on(entries, keys.drop_last(), id) + occurrences(entries[keys.last()].shards, id)
    }
}

/// A number as far as it fits.
pub open spec fn capped(n: nat) -> usize {
    if n <= usize::MAX {
        n as usize
    } else {
        usize::MAX
    }
}

/// The healthy shards, in the order of their numbers.
pub open spec fn healthy_ids(shards: Seq<ShardInfo>) -> Seq<usize> {
    placement::all_ids(shards.len()).filter(|id: usize| is_healthy(shards, id))
}

/// The healthy shards, each with the number of objects on it.
pub open spec fn object_counts(c: store::ClusterState) -> Seq<(usize, usize)> {
    let healthy = healthy_ids(c.shards);
    Seq::new(
        healthy.len(),
        |i: int| (healthy[i], capped(stored_on(c.entries, keys_of(c), healthy[i]))),
    )
}

impl ShardedObjectStore {
    /// The number of objects on a shard.
    fn count_on(&self, id: ShardId) -> (n: usize)
        ensures
            n == capped(stored_on(self@.entries, keys_of(self@), id)),
    {
        let map = self.catalog().with_entries();
        let len: usize = map.len();
        let ghost entries = self@.entries;
        let ghost keys = keys_of(self@);
        let mut n: usize = 0;
        let mut i: usize = 0;
        while i < len
            invariant
                i <= len,
                len == keys.len(),
                map@ == entries,
                keys == string_map::sorted(entries.dom()),
                n == capped(stored_on(entries, keys.take(i as int), id)),
            decreases len - i,
        {
            let entry = map.value_at(i);
            let ghost held = entry.shards@;
            let ghost so_far = stored_on(entries, keys.take(i as int), id);
            let ghost pred = same_as(id);
            proof {
                assert(keys.take(i + 1).drop_last() =~= keys.take(i as int));
                assert(keys.take(i + 1).last() == keys[i as int]);
                assert(stored_on(entries, keys.take(i + 1), id) == so_far + occurrences(held, id));
                placement::lemma_filter_none(held, pred);
            }
            let mut j: usize = 0;
            while j < entry.shards.len()
                invariant
                    j <= entry.shards.len(),
                    held == entry.shards@,
                    so_far + occurrences(held, id) == stored_on(entries, keys.take(i + 1), id),
                    pred == same_as(id),
                    n == capped(so_far + held.take(j as int).filter(pred).len()),
                decreases entry.shards.len() - j,
            {
                proof {
                    placement::lemma_filter_step(held, j as int, pred);
                }
                if entry.shards[j] == id && n < usize::MAX {
                    n = n + 1;
                }
                j = j + 1;
            }
            assert(held.take(j as int) =~= held);
            assert(n == capped(stored_on(entries, keys.take(i + 1), id)));
            i = i + 1;
        }
        assert(keys.take(len as int) =~= keys);
        n
    }

    /// The healthy shards, in the order of their numbers.
    pub fn healthy_shards(&self) -> (r: Vec<ShardId>)
        ensures
            r@ == healthy_ids(self@.shards),
    {
        let shards = self.shards();
        let ghost all = placement::all_ids(self@.shards.len());
        let ghost pred = |id: usize| is_healthy(self@.shards, id);
        let mut r: Vec<ShardId> = Vec::new();
        let mut id: usize = 0;
        proof {
            placement::lemma_filter_none(all, pred);
        }
        while id < shards.len()
            invariant
                id <= shards.len(),
                shards@ == self@.shards,
                all == placement::all_ids(self@.shards.len()),
                pred == (|id: usize| is_healthy(self@.shards, id)),
                r@ == all.take(id as int).filter(pred),
            decreases shards.len() - id,
        {
            proof {
                placement::lemma_filter_step(all, id as int, pred);
            }
            if shards[id].health == ShardHealth::Healthy {
                r.push(id);
            }
            id = id + 1;
        }
        assert(all.take(id as int) =~= all);
        r
    }

    /// The healthy shards, each with the number of objects on it.
    pub fn shard_object_counts(&self) -> (r: Vec<(ShardId, usize)>)
        ensures
            r@ == object_counts(self@),
    {
        let healthy = self.healthy_shards();
        let mut r: Vec<(ShardId, usize)> = Vec::new();
        let mut i: usize = 0;
        while i < healthy.len()
            invariant
                i <= healthy.len(),
                healthy@ == healthy_ids(self@.shards),
                r@ == object_counts(self@).take(i as int),
            decreases healthy.len() - i,
        {
            let n: usize = self.count_on(healthy[i]);
            r.push((healthy[i], n));
            assert(r@ =~= object_counts(self@).take(i + 1));
            i = i + 1;
        }
        assert(object_counts(self@).take(i as int) =~= object_counts(self@));
        r
    }
}

// -- Laws -------------------------------------------------------------------

/// Whether a shard is in one of two states.
pub open spec fn either(shards: Seq<ShardInfo>, a: ShardHealth, b: ShardHealth) -> spec_fn(
    usize,
) -> bool {
    |id: usize|
        id < shards.len() && (shards[id as int].health == a || shards[id as int].health == b)
}

/// The objects with too few copies are exactly those of which fewer than should be kept
/// are on shards that are healthy or syncing; those with too many, of which more are on
/// shards that are healthy or degraded. Each is found once.
pub proof fn an_object_is_found_iff_its_copies_are_too_few_or_too_many(c: store::ClusterState)
    requires
        c.entries.dom().finite(),
    ensures
        under_replicated(c).no_duplicates(),
        over_replicated(c).no_duplicates(),
        forall|k: Seq<char>| #[trigger]
            under_replicated(c).contains(k) <==> c.entries.contains_key(k)
                && c.entries[k].shards.filter(
                either(c.shards, ShardHealth::Healthy, ShardHealth::Syncing),
            ).len() < c.rf,
        forall|k: Seq<char>| #[trigger]
            over_replicated(c).contains(k) <==> c.entries.contains_key(k)
                && c.entries[k].shards.filter(
                either(c.shards, ShardHealth::Healthy, ShardHealth::Degraded),
            ).len() > c.rf,
{
    let few = |k: Seq<char>| live_copies(c, k) < c.rf;
    let many = |k: Seq<char>| usable_copies(c, k) > c.rf;
    catalog::lemma_kept_keys(c.entries, few);
    catalog::lemma_kept_keys(c.entries, many);
    assert(either(c.shards, ShardHealth::Healthy, ShardHealth::Syncing) =~= (|id: usize|
        is_live(c.shards, id)));
    assert(either(c.shards, ShardHealth::Healthy, ShardHealth::Degraded) =~= (|id: usize|
        placement::takes_writes(c.shards, id)));
}

/// A copy is added on a healthy shard that does not hold the object and has at least as
/// much free space as any other such shard. There is one unless every healthy shard
/// holds the object.
pub proof fn a_copy_is_added_where_most_space_is_free(c: store::ClusterState, key: Seq<char>)
    requires
        c.shards.len() <= usize::MAX,
    ensures
        ({
            let fits = |id: usize|
                id < c.shards.len() && c.shards[id as int].health == ShardHealth::Healthy && !(
                c.entries.contains_key(key) && c.entries[key].shards.contains(id));
            &&& replication_target(c, key) matches Some(id) ==> fits(id) && forall|other: usize|
                #[trigger] fits(other) ==> c.shards[other as int].free_space
                    <= c.shards[id as int].free_space
            &&& replication_target(c, key) is None <==> forall|id: usize| !(#[trigger] fits(id))
        }),
{
    let fits = |id: usize|
        id < c.shards.len() && c.shards[id as int].health == ShardHealth::Healthy && !(
        c.entries.contains_key(key) && c.entries[key].shards.contains(id));
    assert forall|id: usize| #[trigger] fits(id) <==> can_receive(c, key, id) by {
        assert(!Seq::<usize>::empty().contains(id));
    }
    if let Some(id) = replication_target(c, key) {
        assert(best_target(c, key, id));
        assert(fits(id));
        assert forall|other: usize| #[trigger] fits(other) implies c.shards[other as int].free_space
            <= c.shards[id as int].free_space by {
            assert(can_receive(c, key, other));
        }
    } else if exists|id: usize| #[trigger] fits(id) {
        let id = choose|id: usize| #[trigger] fits(id);
        let best = lemma_some_best(c, key, id, c.shards.len());
    }
}

proof fn lemma_some_best(c: store::ClusterState, key: Seq<char>, id: usize, n: nat) -> (best: usize)
    requires
        can_receive(c, key, id),
        n <= c.shards.len() <= usize::MAX,
    ensures
        can_receive(c, key, best),
        forall|other: usize|
            other < n && #[trigger] can_receive(c, key, other) ==> c.shards[other as int].free_space
                < c.shards[best as int].free_space || (c.shards[other as int].free_space
                == c.shards[best as int].free_space && other <= best),
        n == c.shards.len() ==> best_target(c, key, best),
    decreases n,
{
    if n == 0 {
        id
    } else {
        let b = lemma_some_best(c, key, id, (n - 1) as nat);
        let x = (n - 1) as usize;
        if can_receive(c, key, x) && (c.shards[x as int].free_space > c.shards[b as int].free_space
            || (c.shards[x as int].free_space == c.shards[b as int].free_space && x > b)) {
            x
        } else {
            b
        }
    }
}

/// A copy is dropped only from a healthy shard that holds the object, and only if as
/// many copies as should be kept are on other healthy shards, and then where least
/// space is free. One is dropped if more copies than should be kept are on healthy
/// shards.
pub proof fn a_copy_is_dropped_where_least_space_is_free(c: store::ClusterState, key: Seq<char>)
    requires
        c.entries.contains_key(key),
        c.entries[key].shards.no_duplicates(),
    ensures
        ({
            let held = c.entries[key].shards;
            let healthy = either(c.shards, ShardHealth::Healthy, ShardHealth::Healthy);
            let n = held.filter(healthy).len();
            &&& excess_of(c, key) is Some <==> n > c.rf
            &&& excess_of(c, key) matches Some(id) ==> held.contains(id) && healthy(id)
                && forall|other: usize| #[trigger]
                held.contains(other) && healthy(other) ==> c.shards[id as int].free_space
                    <= c.shards[other as int].free_space
        }),
{
    let held = c.entries[key].shards;
    let healthy = either(c.shards, ShardHealth::Healthy, ShardHealth::Healthy);
    let is = |id: usize| is_healthy(c.shards, id);
    assert(healthy =~= is);
    let n = held.filter(is).len();
    held.lemma_filter_len(is);
    assert forall|i: int| 0 <= i < held.len() && is(#[trigger] held[i]) implies copies(
        ids::without(held, held[i]),
        is,
    ) + 1 == n by {
        lemma_one_less(held, i, is);
    }
    if let Some(id) = excess_of(c, key) {
        assert(excess_shard(c, key, id));
        let i = choose|i: int| #[trigger] best_drop(c.shards, c.rf, held, i) && id == held[i];
        assert(held.contains(held[i]));
        assert(is(held[i]));
        assert(n > c.rf);
        assert forall|other: usize| #[trigger] held.contains(other) && healthy(
            other,
        ) implies c.shards[id as int].free_space <= c.shards[other as int].free_space by {
            let j = held.index_of(other);
            assert(is(held[j]));
            assert(can_drop(c.shards, c.rf, held, j));
        }
    } else if n > c.rf {
        let f = held.filter(is);
        held.lemma_filter_pred(is, 0);
        held.lemma_filter_contains_rev(is, f[0]);
        let j = held.index_of(f[0]);
        assert(is(held[j]));
        assert(can_drop(c.shards, c.rf, held, j));
        let i = lemma_some_drop(c.shards, c.rf, held, j, held.len());
        assert(excess_shard(c, key, held[i]));
    }
}

proof fn lemma_one_less(held: Seq<usize>, i: int, on: spec_fn(usize) -> bool)
    requires
        held.no_duplicates(),
        0 <= i < held.len(),
        on(held[i]),
    ensures
        copies(ids::without(held, held[i]), on) + 1 == copies(held, on),
    decreases held.len(),
{
    reveal(Seq::filter);
    let head = held.drop_last();
    let x = held[i];
    assert forall|a: int, b: int| 0 <= a < head.len() && 0 <= b < head.len() && a != b implies head[a]
        != head[b] by {
        assert(held[a] != held[b]);
    }
    if i < held.len() - 1 {
        lemma_one_less(head, i, on);
        assert(held[i] != held[held.len() - 1]);
        assert(ids::without(held, x) =~= ids::without(head, x).push(held.last()));
        ids::without(head, x).lemma_filter_push(held.last(), on);
    } else {
        assert(!head.contains(x)) by {
            if head.contains(x) {
                let k = head.index_of(x);
                assert(held[k] != held[i]);
            }
        }
        ids::lemma_without(head, x);
        assert(ids::without(held, x) =~= head);
    }
}

proof fn lemma_some_drop(shards: Seq<ShardInfo>, rf: nat, held: Seq<usize>, j: int, n: nat) -> (i: int)
    requires
        can_drop(shards, rf, held, j),
        n <= held.len(),
    ensures
        can_drop(shards, rf, held, i),
        forall|k: int|
            k < n && #[trigger] can_drop(shards, rf, held, k) ==> shards[held[k] as int].free_space
                > shards[held[i] as int].free_space || (shards[held[k] as int].free_space
                == shards[held[i] as int].free_space && i <= k),
        n == held.len() ==> best_drop(shards, rf, held, i),
    decreases n,
{
    if n == 0 {
        j
    } else {
        let b = lemma_some_drop(shards, rf, held, j, (n - 1) as nat);
        let x = n - 1;
        if can_drop(shards, rf, held, x) && (shards[held[x] as int].free_space
            < shards[held[b] as int].free_space || (shards[held[x] as int].free_space
            == shards[held[b] as int].free_space && x < b)) {
            x
        } else {
            b
        }
    }
}

proof fn lemma_stored_on(entries: catalog::Entries, keys: Seq<Seq<char>>, id: usize)
    requires
        forall|i: int|
            0 <= i < keys.len() ==> entries[#[trigger] keys[i]].shards.no_duplicates(),
    ensures
        stored_on(entries, keys, id) == keys.filter(
            |k: Seq<char>| entries[k].shards.contains(id),
        ).len(),
    decreases keys.len(),
{
    reveal(Seq::filter);
    if keys.len() > 0 {
        let head = keys.drop_last();
        assert forall|i: int| 0 <= i < head.len() implies entries[
        #[trigger] head[i]].shards.no_duplicates() by {
            assert(head[i] == keys[i]);
        }
        lemma_stored_on(entries, head, id);
        assert(entries[keys[keys.len() - 1]].shards.no_duplicates());
        lemma_named_once(entries[keys.last()].shards, id);
    }
}

proof fn lemma_named_once(held: Seq<usize>, id: usize)
    requires
        held.no_duplicates(),
    ensures
        occurrences(held, id) == if held.contains(id) {
            1nat
        } else {
            0nat
        },
    decreases held.len(),
{
    reveal(Seq::filter);
    if held.len() > 0 {
        let head = held.drop_last();
        assert forall|a: int, b: int|
            0 <= a < head.len() && 0 <= b < head.len() && a != b implies head[a] != head[b] by {
            assert(held[a] != held[b]);
        }
        lemma_named_once(head, id);
        if held.last() == id {
            assert(held.contains(held[held.len() - 1]));
            if head.contains(id) {
                let k = head.index_of(id);
                assert(held[k] != held[held.len() - 1]);
            }
        } else {
            if held.contains(id) {
                let k = held.index_of(id);
                assert(head[k] == id);
            }
            if head.contains(id) {
                let k = head.index_of(id);
                assert(held[k] == id);
            }
        }
    }
}

/// The objects on each healthy shard, and on no other, are counted: as many as there
/// are entries that list it.
pub proof fn each_healthy_shard_is_counted_with_its_objects(c: store::ClusterState)
    requires
        c.shards.len() <= usize::MAX,
        c.entries.dom().finite(),
        forall|k: Seq<char>| #[trigger]
            c.entries.contains_key(k) ==> c.entries[k].shards.no_duplicates(),
    ensures
        ({
            let counts = object_counts(c);
            &&& forall|i: int|
                0 <= i < counts.len() ==> (#[trigger] counts[i]).0 < c.shards.len()
                    && c.shards[counts[i].0 as int].health == ShardHealth::Healthy && (
                catalog::keys_on_shard(c.entries, counts[i].0).len() <= usize::MAX ==> counts[i].1
                    == catalog::keys_on_shard(c.entries, counts[i].0).len())
            &&& forall|id: usize|
                id < c.shards.len() && #[trigger] c.shards[id as int].health
                    == ShardHealth::Healthy ==> exists|i: int|
                    0 <= i < counts.len() && (#[trigger] counts[i]).0 == id
            &&& forall|i: int, j: int|
                0 <= i < j < counts.len() ==> (#[trigger] counts[i]).0 < (#[trigger] counts[j]).0
        }),
{
    let all = placement::all_ids(c.shards.len());
    let pred = |id: usize| is_healthy(c.shards, id);
    let healthy = all.filter(pred);
    let counts = object_counts(c);
    let keys = keys_of(c);
    assert(all.no_duplicates());
    placement::lemma_filter_distinct(all, pred);
    placement::lemma_filter_ascending(all, pred);
    string_map::lemma_sorted_exists(c.entries.dom());
    assert forall|i: int| 0 <= i < keys.len() implies c.entries[
    #[trigger] keys[i]].shards.no_duplicates() by {
        assert(keys.to_set().contains(keys[i]));
        assert(c.entries.contains_key(keys[i]));
    }
    assert forall|i: int| 0 <= i < counts.len() implies (#[trigger] counts[i]).0 < c.shards.len()
        && c.shards[counts[i].0 as int].health == ShardHealth::Healthy && (catalog::keys_on_shard(
        c.entries,
        counts[i].0,
    ).len() <= usize::MAX ==> counts[i].1 == catalog::keys_on_shard(c.entries, counts[i].0).len()) by {
        assert(healthy.contains(healthy[i]));
        lemma_stored_on(c.entries, keys, healthy[i]);
    }
    assert forall|id: usize| id < c.shards.len() && #[trigger] c.shards[id as int].health
        == ShardHealth::Healthy implies exists|i: int|
        0 <= i < counts.len() && (#[trigger] counts[i]).0 == id by {
        assert(all[id as int] == id);
        assert(healthy.contains(id));
        let i = healthy.index_of(id);
        assert(counts[i].0 == id);
    }
    assert forall|i: int, j: int| 0 <= i < j < counts.len() implies (#[trigger] counts[i]).0 < (
    #[trigger] counts[j]).0 by {
        assert(healthy[i] < healthy[j]);
    }
}

/// The objects that are found are those whose counted copies are too few or too many.
pub proof fn lemma_found(c: store::ClusterState)
    requires
        c.entries.dom().finite(),
    ensures
        forall|k: Seq<char>| #[trigger]
            under_replicated(c).contains(k) <==> c.entries.contains_key(k) && live_copies(c, k)
                < c.rf,
        forall|k: Seq<char>| #[trigger]
            over_replicated(c).contains(k) <==> c.entries.contains_key(k) && usable_copies(c, k)
                > c.rf,
{
    let few = |k: Seq<char>| live_copies(c, k) < c.rf;
    let many = |k: Seq<char>| usable_copies(c, k) > c.rf;
    catalog::lemma_kept_keys(c.entries, few);
    catalog::lemma_kept_keys(c.entries, many);
}

} // verus!
