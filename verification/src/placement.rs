//! Which shards an object goes to, and in which order its copies are read.

use vstd::prelude::*;
use vstd::string::*;
use vstd::utf8::*;
use crate::digest;
use crate::digest::crc32c;
use crate::ids::{copy_ids, has_id, ShardId};
use crate::replication;
use crate::replication::jump_consistent_hash;
use crate::store;
use crate::store::{ReadPreference, ShardInfo, ShardedObjectStore};

verus! {

/// The shard that a hash points to, among `n` shards.
pub open spec fn home_of(hash: u32, n: nat) -> nat {
    let buckets = n % 0x1_0000_0000;
    if buckets == 0 {
        u32::MAX as nat
    } else {
        replication::jump_bucket(hash as u64, buckets)
    }
}

/// The hash of an object key.
pub open spec fn key_hash(key: Seq<char>) -> u32 {
    digest::crc32c_of(encode_utf8(key))
}

/// All shards, from one of them on and around.
pub open spec fn ring(home: nat, n: nat) -> Seq<usize> {
    Seq::new(n, |i: int| ((home + i) % n as int) as usize)
}

/// All shards in the order of their numbers.
pub open spec fn all_ids(n: nat) -> Seq<usize> {
    Seq::new(n, |i: int| i as usize)
}

/// Whether a shard takes writes.
pub open spec fn takes_writes(shards: Seq<ShardInfo>, id: usize) -> bool {
    id < shards.len() && shards[id as int].health.writable()
}

/// Whether a shard can be read.
pub open spec fn is_readable(shards: Seq<ShardInfo>, id: usize) -> bool {
    id < shards.len() && !shards[id as int].health.unavailable()
}

/// The shards that take writes, of some.
pub open spec fn writable_of(shards: Seq<ShardInfo>, ids: Seq<usize>) -> Seq<usize> {
    ids.filter(|id: usize| takes_writes(shards, id))
}

/// The shards that can be read, of some.
pub open spec fn readable_of(shards: Seq<ShardInfo>, ids: Seq<usize>) -> Seq<usize> {
    ids.filter(|id: usize| is_readable(shards, id))
}

/// The first `n` elements, or all if there are no more.
pub open spec fn at_most(ids: Seq<usize>, n: nat) -> Seq<usize> {
    if ids.len() <= n {
        ids
    } else {
        ids.take(n as int)
    }
}

/// The shards for a new object with a given hash: all that take writes if those are
/// no more than the copies to keep; else as many as the copies, from the home shard
/// of the hash on.
pub open spec fn targets(shards: Seq<ShardInfo>, rf: nat, hash: u32) -> Seq<usize> {
    let writable = writable_of(shards, all_ids(shards.len()));
    if writable.len() <= rf {
        writable
    } else {
        at_most(writable_of(shards, ring(home_of(hash, shards.len()), shards.len())), rf)
    }
}

/// A list started at one of its positions and continued around.
pub open spec fn rotated(ids: Seq<usize>, start: int) -> Seq<usize> {
    ids.skip(start) + ids.take(start)
}

/// The shards on which to look for an object, before any preference: those of its
/// catalog entry, or else all of them from its home shard on.
pub open spec fn candidates(c: store::ClusterState, key: Seq<char>, hash: u32) -> Seq<usize> {
    readable_of(
        c.shards,
        if c.entries.contains_key(key) {
            c.entries[key].shards
        } else {
            ring(home_of(hash, c.shards.len()), c.shards.len())
        },
    )
}

/// The order in which to read them.
pub open spec fn read_order(c: store::ClusterState, ids: Seq<usize>) -> Seq<usize> {
    match c.read_preference {
        ReadPreference::Ordered => all_ids(c.shards.len()).filter(|id: usize| ids.contains(id)),
        ReadPreference::RoundRobin => if ids.len() <= 1 {
            ids
        } else {
            rotated(ids, c.read_counter as int % ids.len() as int)
        },
    }
}

/// The cluster after an order was handed out: the next read starts elsewhere.
pub open spec fn order_taken(c: store::ClusterState, ids: Seq<usize>) -> store::ClusterState {
    if c.read_preference == ReadPreference::RoundRobin && ids.len() > 1 {
        store::ClusterState {
            read_counter: ((c.read_counter + 1) % 0x1_0000_0000_0000_0000) as u64,
            ..c
        }
    } else {
        c
    }
}

/// Filtering one more element.
pub proof fn lemma_filter_step<T>(s: Seq<T>, i: int, pred: spec_fn(T) -> bool)
    requires
        0 <= i < s.len(),
    ensures
        s.take(i + 1).filter(pred) == if pred(s[i]) {
            s.take(i).filter(pred).push(s[i])
        } else {
            s.take(i).filter(pred)
        },
        s.take(0).filter(pred) == Seq::<T>::empty(),
{
    reveal(Seq::filter);
    assert(s.take(i + 1).drop_last() =~= s.take(i));
    assert(s.take(i + 1).last() == s[i]);
    assert(s.take(0) =~= Seq::<T>::empty());
}

/// Filtering nothing.
pub proof fn lemma_filter_none<T>(s: Seq<T>, pred: spec_fn(T) -> bool)
    ensures
        s.take(0).filter(pred) == Seq::<T>::empty(),
        s.take(s.len() as int) == s,
{
    reveal(Seq::filter);
    assert(s.take(0) =~= Seq::<T>::empty());
    assert(s.take(s.len() as int) =~= s);
}

/// What passes a filter in the first part of a sequence comes first.
proof fn lemma_filter_prefix(s: Seq<usize>, k: int, pred: spec_fn(usize) -> bool)
    requires
        0 <= k <= s.len(),
    ensures
        s.take(k).filter(pred).is_prefix_of(s.filter(pred)),
{
    assert(s =~= s.take(k) + s.skip(k));
    Seq::filter_distributes_over_add(s.take(k), s.skip(k), pred);
    assert(s.take(k).filter(pred) =~= s.filter(pred).take(s.take(k).filter(pred).len() as int));
}

/// The home shard exists.
pub proof fn lemma_home(hash: u32, n: nat)
    requires
        n > 0,
    ensures
        home_of(hash, n) < n,
{
    let buckets = n % 0x1_0000_0000;
    if buckets > 0 {
        if buckets < u32::MAX {
            replication::jump_hash_moves_only_to_the_new_bucket(hash as u64, buckets);
        } else {
            replication::jump_hash_moves_only_to_the_new_bucket(hash as u64, (buckets - 1) as nat);
        }
    }
}

/// The home shard of a hash.
fn home(hash: u32, n: usize) -> (h: usize)
    requires
        n > 0,
    ensures
        h == home_of(hash, n as nat),
        h < n,
{
    proof {
        lemma_home(hash, n as nat);
    }
    let buckets: u32 = (n as u64 % 0x1_0000_0000) as u32;
    jump_consistent_hash(hash as u64, buckets) as usize
}

/// The shard at a position after another, around the ring.
fn around(home: usize, offset: usize, n: usize) -> (id: usize)
    requires
        home < n,
        offset < n,
    ensures
        id == ring(home as nat, n as nat)[offset as int],
        id < n,
{
    let id: usize = if offset < n - home {
        home + offset
    } else {
        offset - (n - home)
    };
    assert((home + offset) % (n as int) == id) by (nonlinear_arith)
        requires
            home < n,
            offset < n,
            id < n,
            home + offset == id || home + offset == id + n,
    ;
    id
}

impl ShardedObjectStore {
    /// The shards that take writes, in the order of their numbers.
    fn writable_ids(&self) -> (r: Vec<ShardId>)
        ensures
            r@ == writable_of(self@.shards, all_ids(self@.shards.len())),
    {
        let shards = self.shards();
        let ghost pred = |id: usize| takes_writes(self@.shards, id);
        let ghost all = all_ids(self@.shards.len());
        let mut r: Vec<ShardId> = Vec::new();
        let mut id: usize = 0;
        proof {
            lemma_filter_none(all, pred);
        }
        while id < shards.len()
            invariant
                id <= shards.len(),
                shards@ == self@.shards,
                pred == (|id: usize| takes_writes(self@.shards, id)),
                all == all_ids(self@.shards.len()),
                r@ == all.take(id as int).filter(pred),
            decreases shards.len() - id,
        {
            proof {
                lemma_filter_step(all, id as int, pred);
            }
            if shards[id].health.is_writable() {
                r.push(id);
            }
            id = id + 1;
        }
        r
    }

    /// The shards for a new object with a given hash.
    pub fn targets_for_hash(&self, hash: u32) -> (r: Vec<ShardId>)
        ensures
            r@ == targets(self@.shards, self@.rf, hash),
    {
        let shards = self.shards();
        let rf: usize = self.replication_factor();
        let writable = self.writable_ids();
        if writable.len() <= rf {
            return writable;
        }
        let n: usize = shards.len();
        let ghost pred = |id: usize| takes_writes(self@.shards, id);
        proof {
            if n == 0 {
                lemma_filter_none(all_ids(0), pred);
            }
        }
        let home: usize = home(hash, n);
        let ghost all = ring(home as nat, n as nat);
        let mut r: Vec<ShardId> = Vec::new();
        let mut offset: usize = 0;
        proof {
            lemma_filter_none(all, pred);
        }
        while offset < n
            invariant
                offset <= n,
                n == shards.len(),
                home < n,
                shards@ == self@.shards,
                rf == self@.rf,
                pred == (|id: usize| takes_writes(self@.shards, id)),
                all == ring(home as nat, n as nat),
                home == home_of(hash, n as nat),
                writable_of(self@.shards, all_ids(n as nat)).len() > rf,
                r@ == all.take(offset as int).filter(pred),
                r.len() < rf || rf == 0,
                rf >= 1,
            decreases n - offset,
        {
            let id: usize = around(home, offset, n);
            proof {
                lemma_filter_step(all, offset as int, pred);
            }
            if shards[id].health.is_writable() {
                r.push(id);
                if r.len() == rf {
                    proof {
                        lemma_filter_prefix(all, offset + 1, pred);
                        let f = all.filter(pred);
                        assert(r@.is_prefix_of(f));
                        assert(r@ =~= f.take(rf as int));
                        if f.len() <= rf {
                            assert(f.take(rf as int) =~= f);
                        }
                    }
                    return r;
                }
            }
            offset = offset + 1;
        }
        assert(all.take(n as int) =~= all);
        r
    }

    /// The shards that should hold a new object.
    ///
    /// Shards that are offline, detached or syncing are passed over; the next ones on
    /// the ring stand in for them.
    pub fn select_targets(&self, key: &str) -> (r: Vec<ShardId>)
        ensures
            r@ == targets(self@.shards, self@.rf, key_hash(key@)),
    {
        let hash: u32 = crc32c(key.as_bytes());
        self.targets_for_hash(hash)
    }

    /// The shards that should hold a new object.
    pub fn target_shards(&self, key: &str) -> (r: Vec<ShardId>)
        ensures
            r@ == targets(self@.shards, self@.rf, key_hash(key@)),
    {
        self.select_targets(key)
    }
}

impl ShardedObjectStore {
    /// The shards that can be read, of some.
    pub(crate) fn readable_ids(&self, ids: &[ShardId]) -> (r: Vec<ShardId>)
        ensures
            r@ == readable_of(self@.shards, ids@),
    {
        let shards = self.shards();
        let ghost pred = |id: usize| is_readable(self@.shards, id);
        let mut r: Vec<ShardId> = Vec::new();
        let mut i: usize = 0;
        proof {
            lemma_filter_none(ids@, pred);
        }
        while i < ids.len()
            invariant
                i <= ids.len(),
                shards@ == self@.shards,
                pred == (|id: usize| is_readable(self@.shards, id)),
                r@ == ids@.take(i as int).filter(pred),
            decreases ids.len() - i,
        {
            proof {
                lemma_filter_step(ids@, i as int, pred);
            }
            let id: usize = ids[i];
            if id < shards.len() && !shards[id].health.is_unavailable() {
                r.push(id);
            }
            i = i + 1;
        }
        assert(ids@.take(i as int) =~= ids@);
        r
    }

    /// All shards that can be read, in the order of their numbers.
    pub fn readable_shards(&self) -> (r: Vec<ShardId>)
        ensures
            r@ == readable_of(self@.shards, all_ids(self@.shards.len())),
    {
        let all = self.number_shards();
        self.readable_ids(all.as_slice())
    }

    /// All shards, in the order of their numbers.
    pub(crate) fn number_shards(&self) -> (r: Vec<ShardId>)
        ensures
            r@ == all_ids(self@.shards.len()),
    {
        let n: usize = self.shard_count();
        let mut r: Vec<ShardId> = Vec::new();
        let mut id: usize = 0;
        while id < n
            invariant
                id <= n,
                r@ == all_ids(id as nat),
            decreases n - id,
        {
            r.push(id);
            assert(r@ =~= all_ids((id + 1) as nat));
            id = id + 1;
        }
        r
    }

    /// All shards, from one of them on and around.
    fn number_shards_from(&self, home: usize) -> (r: Vec<ShardId>)
        requires
            home < self@.shards.len(),
        ensures
            r@ == ring(home as nat, self@.shards.len()),
    {
        let n: usize = self.shard_count();
        let mut r: Vec<ShardId> = Vec::new();
        let mut offset: usize = 0;
        while offset < n
            invariant
                offset <= n,
                home < n,
                r@ == ring(home as nat, n as nat).take(offset as int),
            decreases n - offset,
        {
            r.push(around(home, offset, n));
            assert(r@ =~= ring(home as nat, n as nat).take(offset + 1));
            offset = offset + 1;
        }
        assert(ring(home as nat, n as nat).take(n as int) =~= ring(home as nat, n as nat));
        r
    }

    /// The shards on which to look for an object, given the hash of its key, and
    /// whether the catalog had no entry for it.
    fn candidate_shards(&self, key: &str, hash: u32) -> (r: (Vec<ShardId>, bool))
        ensures
            r.0@ == candidates(self@, key@, hash),
            r.1 == !self@.entries.contains_key(key@),
    {
        match self.catalog().get(key) {
            Some(e) => (self.readable_ids(e.shards.as_slice()), false),
            None => {
                let n: usize = self.shard_count();
                if n == 0 {
                    let none: Vec<ShardId> = Vec::new();
                    assert(none@ =~= ring(home_of(hash, 0), 0));
                    (self.readable_ids(none.as_slice()), true)
                } else {
                    let all = self.number_shards_from(home(hash, n));
                    (self.readable_ids(all.as_slice()), true)
                }
            },
        }
    }

    /// Puts shards into the order in which to read them.
    pub fn balanced_shard_order(&mut self, ids: &[ShardId]) -> (r: Vec<ShardId>)
        ensures
            r@ == read_order(old(self)@, ids@),
            final(self)@ == order_taken(old(self)@, ids@),
            store::valid(old(self)@) ==> store::valid(final(self)@),
    {
        match self.read_preference() {
            ReadPreference::Ordered => {
                let all = self.number_shards();
                let ghost pred = |id: usize| ids@.contains(id);
                let mut r: Vec<ShardId> = Vec::new();
                let mut i: usize = 0;
                proof {
                    lemma_filter_none(all@, pred);
                }
                while i < all.len()
                    invariant
                        i <= all.len(),
                        pred == (|id: usize| ids@.contains(id)),
                        r@ == all@.take(i as int).filter(pred),
                    decreases all.len() - i,
                {
                    proof {
                        lemma_filter_step(all@, i as int, pred);
                    }
                    if has_id(ids, all[i]) {
                        r.push(all[i]);
                    }
                    i = i + 1;
                }
                assert(all@.take(i as int) =~= all@);
                r
            },
            ReadPreference::RoundRobin => {
                if ids.len() <= 1 {
                    return copy_ids(ids);
                }
                let start: usize = (self.read_counter() % ids.len() as u64) as usize;
                self.advance_read_counter();
                let mut r = copy_ids(&ids[start..ids.len()]);
                let mut i: usize = 0;
                assert(r@ =~= ids@.skip(start as int) + ids@.take(0));
                while i < start
                    invariant
                        i <= start < ids.len(),
                        r@ == ids@.skip(start as int) + ids@.take(i as int),
                    decreases start - i,
                {
                    r.push(ids[i]);
                    assert(r@ =~= ids@.skip(start as int) + ids@.take(i + 1));
                    i = i + 1;
                }
                r
            },
        }
    }

    /// The order in which to look for an object on the shards, given the hash of its
    /// key, and whether the catalog had no entry for it.
    pub fn resolve_shards_for_hash(&mut self, key: &str, hash: u32) -> (r: (Vec<ShardId>, bool))
        ensures
            r.0@ == read_order(old(self)@, candidates(old(self)@, key@, hash)),
            r.1 == !old(self)@.entries.contains_key(key@),
            final(self)@ == order_taken(old(self)@, candidates(old(self)@, key@, hash)),
            store::valid(old(self)@) ==> store::valid(final(self)@),
    {
        let (ids, fallback) = self.candidate_shards(key, hash);
        (self.balanced_shard_order(ids.as_slice()), fallback)
    }

    /// The order in which to look for an object on the shards, and whether the
    /// catalog had no entry for it.
    pub fn resolve_shards(&mut self, key: &str) -> (r: (Vec<ShardId>, bool))
        ensures
            r.0@ == read_order(old(self)@, candidates(old(self)@, key@, key_hash(key@))),
            r.1 == !old(self)@.entries.contains_key(key@),
            final(self)@ == order_taken(
                old(self)@,
                candidates(old(self)@, key@, key_hash(key@)),
            ),
            store::valid(old(self)@) ==> store::valid(final(self)@),
    {
        let hash: u32 = crc32c(key.as_bytes());
        self.resolve_shards_for_hash(key, hash)
    }

    /// The order in which to read an object: the shards of its catalog entry, or else
    /// all that can be read, balanced over reads.
    pub fn read_shard_order(&mut self, key: &str) -> (r: Vec<ShardId>)
        ensures
            r@ == read_order(old(self)@, candidates(old(self)@, key@, key_hash(key@))),
            final(self)@ == order_taken(
                old(self)@,
                candidates(old(self)@, key@, key_hash(key@)),
            ),
            store::valid(old(self)@) ==> store::valid(final(self)@),
    {
        let (order, _fallback) = self.resolve_shards(key);
        order
    }
}

// -- Laws -------------------------------------------------------------------

/// Every shard is somewhere on the ring, once.
pub proof fn lemma_ring(home: nat, n: nat)
    requires
        home < n,
        n <= usize::MAX,
    ensures
        ring(home, n).len() == n,
        forall|i: int| 0 <= i < n ==> (#[trigger] ring(home, n)[i]) < n,
        ring(home, n).no_duplicates(),
        forall|id: usize| id < n ==> #[trigger] ring(home, n).contains(id),
{
    let r = ring(home, n);
    assert forall|i: int| 0 <= i < n implies (#[trigger] r[i]) < n && r[i] == (if home + i < n {
        home + i
    } else {
        home + i - n
    }) by {
        let j = if home + i < n {
            home + i
        } else {
            home + i - n
        };
        assert((home + i) % (n as int) == j) by (nonlinear_arith)
            requires
                0 <= j < n,
                home + i == j || home + i == j + n,
        ;
    }
    assert forall|id: usize| id < n implies #[trigger] r.contains(id) by {
        let i = if id >= home {
            id - home
        } else {
            id + n - home
        };
        assert(r[i] == id);
    }
}

/// Filtering keeps elements apart.
pub proof fn lemma_filter_distinct(s: Seq<usize>, pred: spec_fn(usize) -> bool)
    requires
        s.no_duplicates(),
    ensures
        s.filter(pred).no_duplicates(),
        forall|x: usize| #[trigger] s.filter(pred).contains(x) <==> s.contains(x) && pred(x),
    decreases s.len(),
{
    reveal(Seq::filter);
    if s.len() > 0 {
        let head = s.drop_last();
        lemma_filter_distinct(head, pred);
        let f = head.filter(pred);
        let r = s.filter(pred);
        assert forall|x: usize| s.contains(x) == (head.contains(x) || x == s.last()) by {
            if head.contains(x) {
                let i = choose|i: int| 0 <= i < head.len() && head[i] == x;
                assert(s[i] == x);
            }
            if s.contains(x) && x != s.last() {
                let i = choose|i: int| 0 <= i < s.len() && s[i] == x;
                assert(head[i] == x);
            }
            assert(s[s.len() - 1] == s.last());
        }
        if pred(s.last()) {
            assert forall|x: usize| #[trigger] r.contains(x) <==> f.contains(x) || x == s.last() by {
                if f.contains(x) {
                    let i = choose|i: int| 0 <= i < f.len() && f[i] == x;
                    assert(r[i] == x);
                }
                assert(r[r.len() - 1] == s.last());
                if r.contains(x) && x != s.last() {
                    let i = choose|i: int| 0 <= i < r.len() && r[i] == x;
                    assert(f[i] == x);
                }
            }
            assert(!head.contains(s.last())) by {
                if head.contains(s.last()) {
                    let i = choose|i: int| 0 <= i < head.len() && head[i] == s.last();
                    assert(s[i] == s[s.len() - 1]);
                }
            }
            assert(!f.contains(s.last()));
            assert forall|i: int, j: int| 0 <= i < r.len() && 0 <= j < r.len() && i != j implies r[i]
                != r[j] by {
                if i < f.len() && j < f.len() {
                    assert(f[i] != f[j]);
                } else if i < f.len() {
                    assert(f.contains(f[i]));
                } else {
                    assert(f.contains(f[j]));
                }
            }
        }
    }
}

/// Two lists without repetition of the same elements are equally long.
proof fn lemma_same_len(a: Seq<usize>, b: Seq<usize>)
    requires
        a.no_duplicates(),
        b.no_duplicates(),
        forall|x: usize| a.contains(x) == b.contains(x),
    ensures
        a.len() == b.len(),
{
    a.unique_seq_to_set();
    b.unique_seq_to_set();
    assert(a.to_set() =~= b.to_set());
}

/// A new object goes to distinct shards that take writes: to as many as copies are
/// kept, or to all of them if there are fewer.
pub proof fn targets_are_distinct_writable_shards(shards: Seq<ShardInfo>, rf: nat, hash: u32)
    requires
        shards.len() <= usize::MAX,
    ensures
        targets(shards, rf, hash).no_duplicates(),
        forall|i: int|
            0 <= i < targets(shards, rf, hash).len() ==> takes_writes(
                shards,
                #[trigger] targets(shards, rf, hash)[i],
            ),
        targets(shards, rf, hash).len() == {
            let writable = writable_of(shards, all_ids(shards.len())).len();
            if writable <= rf {
                writable
            } else {
                rf
            }
        },
{
    let n = shards.len();
    let pred = |id: usize| takes_writes(shards, id);
    let all = all_ids(n);
    assert(all.no_duplicates());
    lemma_filter_distinct(all, pred);
    let writable = all.filter(pred);
    let t = targets(shards, rf, hash);
    if writable.len() <= rf {
        assert forall|i: int| 0 <= i < t.len() implies takes_writes(shards, #[trigger] t[i]) by {
            assert(writable.contains(t[i]));
        }
    } else {
        all.lemma_filter_len(pred);
        lemma_home(hash, n);
        let h = home_of(hash, n);
        let r = ring(h, n);
        lemma_ring(h, n);
        lemma_filter_distinct(r, pred);
        let f = r.filter(pred);
        assert forall|x: usize| f.contains(x) == writable.contains(x) by {
            if x < n {
                assert(all[x as int] == x);
                assert(r.contains(x));
            }
        }
        lemma_same_len(f, writable);
        assert forall|i: int| 0 <= i < t.len() implies takes_writes(shards, #[trigger] t[i]) by {
            assert(t[i] == f[i]);
            assert(f.contains(f[i]));
        }
    }
}

/// A rotation has the elements of the list, in its cyclic order.
pub proof fn a_rotation_reads_every_candidate_once(ids: Seq<usize>, start: int)
    requires
        0 <= start < ids.len(),
    ensures
        rotated(ids, start).len() == ids.len(),
        rotated(ids, start).to_multiset() == ids.to_multiset(),
        forall|i: int|
            0 <= i < ids.len() ==> #[trigger] rotated(ids, start)[i] == ids[(start + i)
                % ids.len() as int],
{
    let r = rotated(ids, start);
    assert(ids =~= ids.take(start) + ids.skip(start));
    vstd::seq_lib::lemma_multiset_commutative(ids.take(start), ids.skip(start));
    vstd::seq_lib::lemma_multiset_commutative(ids.skip(start), ids.take(start));
    assert(r.to_multiset() =~= ids.to_multiset());
    assert forall|i: int| 0 <= i < ids.len() implies #[trigger] r[i] == ids[(start + i)
        % ids.len() as int] by {
        let n = ids.len() as int;
        let j = if start + i < n {
            start + i
        } else {
            start + i - n
        };
        assert((start + i) % n == j) by (nonlinear_arith)
            requires
                0 <= j < n,
                start + i == j || start + i == j + n,
        ;
    }
}

/// A read asks exactly the candidates, whatever the preference.
pub proof fn a_read_order_holds_exactly_the_candidates(c: store::ClusterState, ids: Seq<usize>)
    requires
        c.shards.len() <= usize::MAX,
        forall|i: int| 0 <= i < ids.len() ==> (#[trigger] ids[i]) < c.shards.len(),
    ensures
        forall|id: usize| #[trigger] read_order(c, ids).contains(id) <==> ids.contains(id),
{
    let order = read_order(c, ids);
    match c.read_preference {
        ReadPreference::Ordered => {
            let all = all_ids(c.shards.len());
            let pred = |id: usize| ids.contains(id);
            assert(all.no_duplicates());
            lemma_filter_distinct(all, pred);
            assert forall|id: usize| #[trigger] order.contains(id) <==> ids.contains(id) by {
                if ids.contains(id) {
                    let i = choose|i: int| 0 <= i < ids.len() && ids[i] == id;
                    assert(ids[i] < c.shards.len());
                    assert(all[id as int] == id);
                }
            }
        },
        ReadPreference::RoundRobin => {
            if ids.len() > 1 {
                let start = c.read_counter as int % ids.len() as int;
                let r = rotated(ids, start);
                assert forall|id: usize| #[trigger] r.contains(id) <==> ids.contains(id) by {
                    if ids.contains(id) {
                        let i = choose|i: int| 0 <= i < ids.len() && ids[i] == id;
                        if i >= start {
                            assert(r[i - start] == id);
                        } else {
                            assert(r[ids.len() - start + i] == id);
                        }
                    }
                    if r.contains(id) {
                        let i = choose|i: int| 0 <= i < r.len() && r[i] == id;
                        if i < ids.len() - start {
                            assert(ids[start + i] == id);
                        } else {
                            assert(ids[i - (ids.len() - start)] == id);
                        }
                    }
                }
            }
        },
    }
}

pub proof fn lemma_filter_ascending(s: Seq<usize>, pred: spec_fn(usize) -> bool)
    requires
        forall|i: int, j: int| 0 <= i < j < s.len() ==> s[i] < s[j],
    ensures
        forall|i: int, j: int|
            0 <= i < j < s.filter(pred).len() ==> s.filter(pred)[i] < s.filter(pred)[j],
    decreases s.len(),
{
    reveal(Seq::filter);
    if s.len() > 0 {
        let head = s.drop_last();
        lemma_filter_ascending(head, pred);
        let f = head.filter(pred);
        let r = s.filter(pred);
        assert(head.no_duplicates());
        lemma_filter_distinct(head, pred);
        assert forall|i: int, j: int| 0 <= i < j < r.len() implies r[i] < r[j] by {
            if j < f.len() {
                assert(f[i] < f[j]);
            } else {
                assert(f.contains(f[i]));
                let k = choose|k: int| 0 <= k < head.len() && head[k] == f[i];
                assert(s[k] < s[s.len() - 1]);
            }
        }
    }
}

/// An ordered read goes up in the numbers of the shards.
pub proof fn an_ordered_read_goes_up(c: store::ClusterState, ids: Seq<usize>)
    requires
        c.shards.len() <= usize::MAX,
        c.read_preference == ReadPreference::Ordered,
    ensures
        forall|i: int, j: int|
            0 <= i < j < read_order(c, ids).len() ==> read_order(c, ids)[i] < read_order(c, ids)[j],
{
    lemma_filter_ascending(all_ids(c.shards.len()), |id: usize| ids.contains(id));
}

/// A read asks no shard twice, unless the candidates hold one twice.
pub proof fn lemma_order_unique(c: store::ClusterState, ids: Seq<usize>)
    requires
        c.shards.len() <= usize::MAX,
        ids.no_duplicates(),
    ensures
        read_order(c, ids).no_duplicates(),
{
    match c.read_preference {
        ReadPreference::Ordered => {
            let all = all_ids(c.shards.len());
            assert(all.no_duplicates());
            lemma_filter_distinct(all, |id: usize| ids.contains(id));
        },
        ReadPreference::RoundRobin => {
            if ids.len() > 1 {
                let start = c.read_counter as int % ids.len() as int;
                let r = rotated(ids, start);
                let n = ids.len() as int;
                assert forall|i: int, j: int|
                    0 <= i < r.len() && 0 <= j < r.len() && i != j implies r[i] != r[j] by {
                    let a = if i < n - start {
                        start + i
                    } else {
                        i - (n - start)
                    };
                    let b = if j < n - start {
                        start + j
                    } else {
                        j - (n - start)
                    };
                    assert(r[i] == ids[a] && r[j] == ids[b]);
                    assert(a != b);
                }
            }
        },
    }
}

proof fn lemma_prefix_that_gives(s: Seq<usize>, pred: spec_fn(usize) -> bool, m: nat) -> (d: int)
    requires
        m <= s.filter(pred).len(),
    ensures
        0 <= d <= s.len(),
        s.take(d).filter(pred) == s.filter(pred).take(m as int),
    decreases s.len(),
{
    reveal(Seq::filter);
    let f = s.filter(pred);
    if m == f.len() {
        assert(s.take(s.len() as int) =~= s);
        assert(f.take(m as int) =~= f);
        s.len() as int
    } else {
        let head = s.drop_last();
        let d = lemma_prefix_that_gives(head, pred, m);
        assert(s.take(d) =~= head.take(d));
        assert(head.filter(pred).take(m as int) =~= f.take(m as int));
        d
    }
}

/// How far a shard is from the home of an object, going up in the numbers and around.
pub open spec fn distance(home: nat, n: nat, id: usize) -> int {
    if id >= home {
        id - home
    } else {
        id + n - home
    }
}

/// A new object goes to the shards that take writes and are nearest to its home, going
/// up in the numbers and around: any shard that takes writes and does not get it is
/// farther than those that do.
pub proof fn a_new_object_goes_to_the_shards_nearest_to_its_home(
    shards: Seq<ShardInfo>,
    rf: nat,
    hash: u32,
    near: usize,
    far: usize,
)
    requires
        0 < shards.len() <= usize::MAX,
        targets(shards, rf, hash).contains(near),
        far < shards.len(),
        shards[far as int].health.writable(),
        !targets(shards, rf, hash).contains(far),
    ensures
        distance(home_of(hash, shards.len()), shards.len(), near) < distance(
            home_of(hash, shards.len()),
            shards.len(),
            far,
        ),
{
    let n = shards.len();
    let h = home_of(hash, n);
    let pred = |id: usize| takes_writes(shards, id);
    let all = all_ids(n);
    let r = ring(h, n);
    lemma_home(hash, n);
    lemma_ring(h, n);
    assert(all.no_duplicates());
    lemma_filter_distinct(all, pred);
    lemma_filter_distinct(r, pred);
    assert(all[far as int] == far);
    assert(all.filter(pred).contains(far));
    let f = r.filter(pred);
    assert forall|x: usize| f.contains(x) == all.filter(pred).contains(x) by {
        if x < n {
            assert(all[x as int] == x);
            assert(r.contains(x));
        }
    }
    lemma_same_len(f, all.filter(pred));
    let d = lemma_prefix_that_gives(r, pred, rf);
    let t = targets(shards, rf, hash);
    assert(t == r.take(d).filter(pred));
    let k = r.take(d);
    assert forall|i: int, j: int| 0 <= i < k.len() && 0 <= j < k.len() && i != j implies k[i] != k[j] by {
        assert(r[i] != r[j]);
    }
    lemma_filter_distinct(k, pred);
    assert(k.contains(near) && !k.contains(far));
    let i = k.index_of(near);
    assert(r[i] == near);
    assert(r.contains(far));
    let j = r.index_of(far);
    assert(j >= d) by {
        if j < d {
            assert(k[j] == far);
        }
    }
    lemma_ring_place(h, n, i);
    lemma_ring_place(h, n, j);
}

proof fn lemma_ring_place(home: nat, n: nat, i: int)
    requires
        home < n <= usize::MAX,
        0 <= i < n,
    ensures
        distance(home, n, ring(home, n)[i]) == i,
{
    let x = if home + i < n {
        home + i
    } else {
        home + i - n
    };
    assert((home + i) % n as int == x) by (nonlinear_arith)
        requires
            0 <= x < n,
            home + i == x || home + i == x + n,
    ;
}

/// In turns, each read starts at the candidate after the one at which the last started,
/// around. With one candidate or none there are no turns to take.
pub proof fn reads_take_turns(c: store::ClusterState, ids: Seq<usize>)
    requires
        c.read_preference == ReadPreference::RoundRobin,
        c.read_counter < u64::MAX,
        ids.len() > 1,
    ensures
        ({
            let n = ids.len() as int;
            let at = c.read_counter as int % n;
            let next = order_taken(c, ids);
            &&& read_order(c, ids)[0] == ids[at]
            &&& read_order(next, ids)[0] == ids[if at + 1 < n {
                at + 1
            } else {
                0
            }]
            &&& next == (store::ClusterState { read_counter: next.read_counter, ..c })
            &&& order_taken(c, ids.take(1)) == c
        }),
{
    let n = ids.len() as int;
    let k = c.read_counter as int;
    let at = k % n;
    let then = if at + 1 < n {
        at + 1
    } else {
        0
    };
    assert((k + 1) % n == then) by (nonlinear_arith)
        requires
            n > 1,
            k >= 0,
            at == k % n,
            then == if at + 1 < n {
                at + 1
            } else {
                0
            },
    ;
}

} // verus!
