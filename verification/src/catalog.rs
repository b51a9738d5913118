//! The placement catalog: which shards hold which object.

use vstd::prelude::*;
use vstd::string::*;
use crate::ids;
use crate::ids::{copy_ids, drop_id, has_id, ShardId};
use crate::path::path_from;
use crate::string_map;
use crate::string_map::StringMap;
use crate::text;
use crate::text::starts_with;
use crate::time::Timestamp;

verus! {

/// Where a single object lives across the cluster.
#[derive(Debug)]
pub struct PlacementEntry {
    /// Shards that hold a copy.
    pub shards: Vec<ShardId>,
    /// Size of the object body in bytes, without a metadata suffix.
    pub size: u64,
    /// CRC-32C of the body.
    pub crc32c: Option<u32>,
    /// When the entry was last updated.
    pub updated: Timestamp,
    /// Length of the metadata suffix stored after the body on raw shards; zero for
    /// objects without metadata and on other shards.
    pub meta_len: u16,
}

/// What a placement entry says.
#[verifier::ext_equal]
pub struct Placement {
    pub shards: Seq<usize>,
    pub size: u64,
    pub crc32c: Option<u32>,
    pub updated: Timestamp,
    pub meta_len: u16,
}

impl View for PlacementEntry {
    type V = Placement;

    open spec fn view(&self) -> Placement {
        Placement {
            shards: self.shards@,
            size: self.size,
            crc32c: self.crc32c,
            updated: self.updated,
            meta_len: self.meta_len,
        }
    }
}

impl Clone for PlacementEntry {
    fn clone(&self) -> (r: Self)
        ensures
            r@ == self@,
    {
        PlacementEntry {
            shards: copy_ids(self.shards.as_slice()),
            size: self.size,
            crc32c: self.crc32c,
            updated: self.updated,
            meta_len: self.meta_len,
        }
    }
}

/// An object as listings show it.
#[derive(Debug)]
pub struct ObjectMeta {
    pub location: String,
    pub last_modified: Timestamp,
    pub size: u64,
    pub e_tag: Option<String>,
    pub version: Option<String>,
}

/// What a listing says of an object.
pub struct ObjectSpec {
    pub location: Seq<char>,
    pub last_modified: Timestamp,
    pub size: u64,
    pub e_tag: Option<Seq<char>>,
    pub version: Option<Seq<char>>,
}

impl View for ObjectMeta {
    type V = ObjectSpec;

    open spec fn view(&self) -> ObjectSpec {
        ObjectSpec {
            location: self.location@,
            last_modified: self.last_modified,
            size: self.size,
            e_tag: text::opt_view(self.e_tag),
            version: text::opt_view(self.version),
        }
    }
}

/// What a listing says.
pub open spec fn object_specs(v: Seq<ObjectMeta>) -> Seq<ObjectSpec> {
    Seq::new(v.len(), |i: int| v[i]@)
}

/// Keys with their entries.
pub open spec fn entry_views(v: Seq<(String, PlacementEntry)>) -> Seq<(Seq<char>, Placement)> {
    Seq::new(v.len(), |i: int| (v[i].0@, v[i].1@))
}

/// Contents of a catalog.
pub type Entries = Map<Seq<char>, Placement>;

/// The entry of a full placement.
pub open spec fn placed(
    shards: Seq<usize>,
    size: u64,
    crc32c: Option<u32>,
    meta_len: u16,
    now: Timestamp,
) -> Placement {
    Placement { shards, size, crc32c, updated: now, meta_len }
}

/// The entry of a key after a replica was found on a shard. An entry that is there
/// keeps its size and time; its metadata length changes only to a known one.
pub open spec fn with_replica(
    entries: Entries,
    key: Seq<char>,
    shard: usize,
    size: u64,
    meta_len: u16,
    now: Timestamp,
) -> Placement {
    if entries.contains_key(key) {
        let e = entries[key];
        Placement {
            shards: ids::with(e.shards, shard),
            meta_len: if meta_len > 0 {
                meta_len
            } else {
                e.meta_len
            },
            ..e
        }
    } else {
        placed(seq![shard], size, None, meta_len, now)
    }
}

/// The entries after a replica was found.
pub open spec fn replica_added(
    entries: Entries,
    key: Seq<char>,
    shard: usize,
    size: u64,
    meta_len: u16,
    now: Timestamp,
) -> Entries {
    entries.insert(key, with_replica(entries, key, shard, size, meta_len, now))
}

/// The entries after a shard was taken out of one of them. An entry that is left
/// without a shard goes.
pub open spec fn shard_removed(entries: Entries, key: Seq<char>, shard: usize) -> Entries {
    if entries.contains_key(key) {
        let e = entries[key];
        let left = ids::without(e.shards, shard);
        if left.len() == 0 {
            entries.remove(key)
        } else {
            entries.insert(key, Placement { shards: left, ..e })
        }
    } else {
        entries
    }
}

/// The entries after several shards were taken out of one of them, in turn.
pub open spec fn shards_removed(entries: Entries, key: Seq<char>, shards: Seq<usize>) -> Entries
    decreases shards.len(),
{
    if shards.len() == 0 {
        entries
    } else {
        shards_removed(shard_removed(entries, key, shards[0]), key, shards.drop_first())
    }
}

/// Whether an entry goes when a shard goes: no other shard holds the object.
pub open spec fn lost_with(e: Placement, shard: usize) -> bool {
    e.shards.contains(shard) && ids::without(e.shards, shard).len() == 0
}

/// The entries without any reference to a shard.
pub open spec fn shard_purged(entries: Entries, shard: usize) -> Entries {
    Map::new(
        |k: Seq<char>| entries.contains_key(k) && !lost_with(entries[k], shard),
        |k: Seq<char>|
            Placement { shards: ids::without(entries[k].shards, shard), ..entries[k] },
    )
}

/// The keys of the entries that refer to a shard, in ascending order.
pub open spec fn keys_on_shard(entries: Entries, shard: usize) -> Seq<Seq<char>> {
    string_map::sorted(entries.dom()).filter(
        |k: Seq<char>| entries[k].shards.contains(shard),
    )
}

/// Keys with their entries.
pub open spec fn pairs(entries: Entries, keys: Seq<Seq<char>>) -> Seq<(Seq<char>, Placement)> {
    Seq::new(keys.len(), |i: int| (keys[i], entries[keys[i]]))
}

/// The entries that pairs of a key and an entry give, one after the other.
pub open spec fn gathered(all: Seq<(Seq<char>, Placement)>) -> Entries
    decreases all.len(),
{
    if all.len() == 0 {
        Entries::empty()
    } else {
        gathered(all.drop_last()).insert(all.last().0, all.last().1)
    }
}

/// The keys that start with a prefix, or all of them, in ascending order.
pub open spec fn keys_with_prefix(entries: Entries, prefix: Option<Seq<char>>) -> Seq<Seq<char>> {
    string_map::sorted(entries.dom()).filter(
        |k: Seq<char>|
            match prefix {
                Some(p) => p.is_prefix_of(k),
                None => true,
            },
    )
}

/// An entry as a listing shows it.
pub open spec fn listed(key: Seq<char>, e: Placement) -> ObjectSpec {
    ObjectSpec {
        location: crate::path::normalized(key),
        last_modified: e.updated,
        size: e.size,
        e_tag: None,
        version: None,
    }
}

/// Some keys as a listing shows them.
pub open spec fn listing(entries: Entries, keys: Seq<Seq<char>>) -> Seq<ObjectSpec> {
    Seq::new(keys.len(), |i: int| listed(keys[i], entries[keys[i]]))
}

/// The placement catalog, kept in memory.
pub struct Catalog {
    entries: StringMap<PlacementEntry>,
    dirty: bool,
}

impl Catalog {
    /// The entries by key.
    pub closed spec fn entries(&self) -> Entries {
        self.entries@
    }

    /// Whether the catalog has changed since it was last saved.
    pub closed spec fn dirty(&self) -> bool {
        self.dirty
    }

    /// An empty catalog.
    pub fn new() -> (c: Self)
        ensures
            c.entries() == Entries::empty(),
            !c.dirty(),
    {
        Catalog { entries: StringMap::new(), dirty: false }
    }

    /// Another catalog with the same entries.
    pub(crate) fn copy(&self) -> (r: Self)
        ensures
            r.entries() == self.entries(),
            r.dirty() == self.dirty(),
    {
        let n: usize = self.entries.len();
        let ghost entries = self.entries();
        let ghost keys = string_map::sorted(entries.dom());
        let mut m: StringMap<PlacementEntry> = StringMap::new();
        let mut i: usize = 0;
        while i < n
            invariant
                i <= n,
                n == keys.len(),
                entries == self.entries(),
                keys == string_map::sorted(entries.dom()),
                m@ == entries.restrict(keys.take(i as int).to_set()),
                keys.to_set() == entries.dom(),
            decreases n - i,
        {
            let key = self.entries.key_at(i);
            let entry = self.entries.value_at(i);
            m.insert(key.clone(), entry.clone());
            proof {
                assert(keys.take(i + 1) =~= keys.take(i as int).push(keys[i as int]));
                assert(keys.take(i + 1).to_set() =~= keys.take(i as int).to_set().insert(
                    keys[i as int],
                )) by {
                    broadcast use vstd::seq_lib::group_seq_properties;

                }
                assert(m@ =~= entries.restrict(keys.take(i + 1).to_set()));
            }
            i = i + 1;
        }
        assert(keys.take(n as int) =~= keys);
        assert(m@ =~= entries);
        Catalog { entries: m, dirty: self.dirty }
    }

    /// Whether the catalog has changed since the last `clear_dirty`.
    pub fn is_dirty(&self) -> (r: bool)
        ensures
            r == self.dirty(),
    {
        self.dirty
    }

    /// Marks the catalog as saved.
    pub fn clear_dirty(&mut self)
        ensures
            final(self).entries() == old(self).entries(),
            !final(self).dirty(),
    {
        self.dirty = false;
    }

    /// Records a full placement, as of now.
    pub fn put(
        &mut self,
        key: String,
        shards: Vec<ShardId>,
        size: u64,
        crc32c: Option<u32>,
        meta_len: u16,
    )
        ensures
            exists|now: Timestamp|
                final(self).entries() == #[trigger] old(self).entries().insert(
                    key@,
                    placed(shards@, size, crc32c, meta_len, now),
                ),
            final(self).dirty(),
    {
        let now = Timestamp::now();
        self.put_at(key, shards, size, crc32c, meta_len, now);
    }

    /// Records a full placement, as of a given time.
    pub fn put_at(
        &mut self,
        key: String,
        shards: Vec<ShardId>,
        size: u64,
        crc32c: Option<u32>,
        meta_len: u16,
        now: Timestamp,
    )
        ensures
            final(self).entries() == old(self).entries().insert(
                key@,
                placed(shards@, size, crc32c, meta_len, now),
            ),
            final(self).dirty(),
    {
        self.entries.insert(key, PlacementEntry { shards, size, crc32c, updated: now, meta_len });
        self.dirty = true;
    }

    /// Adds a replica of an object, as of now.
    pub fn add_replica(&mut self, key: &str, shard_id: ShardId, size: u64, meta_len: u16)
        ensures
            exists|now: Timestamp|
                final(self).entries() == #[trigger] replica_added(
                    old(self).entries(),
                    key@,
                    shard_id,
                    size,
                    meta_len,
                    now,
                ),
            final(self).dirty(),
    {
        let now = Timestamp::now();
        self.add_replica_at(key, shard_id, size, meta_len, now);
    }

    /// Adds a replica of an object, as of a given time.
    pub fn add_replica_at(
        &mut self,
        key: &str,
        shard_id: ShardId,
        size: u64,
        meta_len: u16,
        now: Timestamp,
    )
        ensures
            final(self).entries() == replica_added(
                old(self).entries(),
                key@,
                shard_id,
                size,
                meta_len,
                now,
            ),
            final(self).dirty(),
    {
        let entry = match self.entries.get(key) {
            Some(e) => {
                let mut e = e.clone();
                if meta_len > 0 {
                    e.meta_len = meta_len;
                }
                if !has_id(e.shards.as_slice(), shard_id) {
                    e.shards.push(shard_id);
                }
                e
            },
            None => {
                let mut shards: Vec<ShardId> = Vec::new();
                shards.push(shard_id);
                assert(shards@ =~= seq![shard_id]);
                PlacementEntry { shards, size, crc32c: None, updated: now, meta_len }
            },
        };
        assert(entry@ =~= with_replica(
            old(self).entries(),
            key@,
            shard_id,
            size,
            meta_len,
            now,
        ));
        self.entries.insert(key.to_owned(), entry);
        self.dirty = true;
    }

    /// The placement of an object.
    pub fn get(&self, key: &str) -> (r: Option<PlacementEntry>)
        ensures
            match r {
                Some(e) => self.entries().contains_key(key@) && e@ == self.entries()[key@],
                None => !self.entries().contains_key(key@),
            },
    {
        match self.entries.get(key) {
            Some(e) => Some(e.clone()),
            None => None,
        }
    }

    /// Whether an object has a placement.
    pub fn contains(&self, key: &str) -> (r: bool)
        ensures
            r == self.entries().contains_key(key@),
    {
        self.entries.contains_key(key)
    }

    /// Inserts an entry without a checksum, as of now, unless the key has one;
    /// whether it did.
    pub fn try_insert(&mut self, key: String, shards: Vec<ShardId>, size: u64) -> (inserted: bool)
        ensures
            inserted == !old(self).entries().contains_key(key@),
            inserted ==> exists|now: Timestamp|
                final(self).entries() == #[trigger] old(self).entries().insert(
                    key@,
                    placed(shards@, size, None, 0, now),
                ),
            inserted ==> final(self).dirty(),
            !inserted ==> *final(self) == *old(self),
    {
        let now = Timestamp::now();
        self.try_insert_at(key, shards, size, now)
    }

    /// Inserts an entry without a checksum, as of a given time, unless the key has
    /// one; whether it did.
    pub fn try_insert_at(
        &mut self,
        key: String,
        shards: Vec<ShardId>,
        size: u64,
        now: Timestamp,
    ) -> (inserted: bool)
        ensures
            inserted == !old(self).entries().contains_key(key@),
            inserted ==> final(self).entries() == old(self).entries().insert(
                key@,
                placed(shards@, size, None, 0, now),
            ),
            inserted ==> final(self).dirty(),
            !inserted ==> *final(self) == *old(self),
    {
        if self.entries.contains_key(key.as_str()) {
            false
        } else {
            self.put_at(key, shards, size, None, 0, now);
            true
        }
    }

    /// Removes an entry, returning it if it existed.
    pub fn remove(&mut self, key: &str) -> (r: Option<PlacementEntry>)
        ensures
            final(self).entries() == old(self).entries().remove(key@),
            match r {
                Some(e) => old(self).entries().contains_key(key@) && e@ == old(self).entries()[key@]
                    && final(self).dirty(),
                None => !old(self).entries().contains_key(key@) && final(self).dirty() == old(
                    self,
                ).dirty(),
            },
    {
        let r = self.entries.remove(key);
        if r.is_some() {
            self.dirty = true;
        }
        r
    }

    /// Removes every entry.
    pub fn clear(&mut self)
        ensures
            final(self).entries() == Entries::empty(),
            final(self).dirty(),
    {
        self.entries.clear();
        self.dirty = true;
    }

    /// Replaces all entries.
    pub fn replace(&mut self, entries: StringMap<PlacementEntry>)
        ensures
            final(self).entries() == entries@,
            final(self).dirty(),
    {
        self.entries = entries;
        self.dirty = true;
    }

    /// Takes the entries of another catalog, as just loaded: nothing is unsaved.
    pub fn load_into(&mut self, other: Catalog)
        ensures
            final(self).entries() == other.entries(),
            !final(self).dirty(),
    {
        self.entries = other.entries;
        self.dirty = false;
    }

    /// A catalog with the given entries, nothing of which is unsaved.
    pub fn from_entries(entries: StringMap<PlacementEntry>) -> (c: Self)
        ensures
            c.entries() == entries@,
            !c.dirty(),
    {
        Catalog { entries, dirty: false }
    }

    /// A catalog with the entries that were kept, as just loaded: nothing is unsaved.
    pub fn from_pairs(all: &Vec<(String, PlacementEntry)>) -> (c: Self)
        ensures
            c.entries() == gathered(entry_views(all@)),
            !c.dirty(),
    {
        let mut entries: StringMap<PlacementEntry> = StringMap::new();
        let mut i: usize = 0;
        assert(entry_views(all@).take(0) =~= Seq::<(Seq<char>, Placement)>::empty());
        assert(entries@ =~= Entries::empty());
        while i < all.len()
            invariant
                i <= all.len(),
                entries@ == gathered(entry_views(all@).take(i as int)),
            decreases all.len() - i,
        {
            entries.insert(all[i].0.clone(), all[i].1.clone());
            assert(entry_views(all@).take(i + 1).drop_last() =~= entry_views(all@).take(i as int));
            i = i + 1;
        }
        assert(entry_views(all@).take(i as int) =~= entry_views(all@));
        Catalog::from_entries(entries)
    }

    /// The number of entries.
    pub fn len(&self) -> (n: usize)
        ensures
            n == self.entries().len(),
            self.entries().dom().finite(),
    {
        self.entries.len()
    }

    /// Whether there is no entry.
    pub fn is_empty(&self) -> (r: bool)
        ensures
            r == (self.entries().len() == 0),
    {
        self.len() == 0
    }

    /// Takes a shard out of one entry; the entry goes if it is left without one.
    pub fn remove_shard(&mut self, key: &str, shard_id: ShardId)
        ensures
            final(self).entries() == shard_removed(old(self).entries(), key@, shard_id),
            final(self).dirty() == (old(self).dirty() || old(self).entries().contains_key(key@)),
    {
        let ghost before = self.entries();
        match self.entries.remove(key) {
            None => {
                assert(before.remove(key@) =~= before);
            },
            Some(mut e) => {
                e.shards = drop_id(e.shards.as_slice(), shard_id);
                if e.shards.len() > 0 {
                    self.entries.insert(key.to_owned(), e);
                    assert(before.remove(key@).insert(key@, e@) =~= before.insert(key@, e@));
                }
                self.dirty = true;
            },
        }
    }
}

/// Filtering one more element.
proof fn lemma_filter_step<T>(s: Seq<T>, i: int, pred: spec_fn(T) -> bool)
    requires
        0 <= i < s.len(),
    ensures
        s.take(i + 1).filter(pred) == if pred(s[i]) {
            s.take(i).filter(pred).push(s[i])
        } else {
            s.take(i).filter(pred)
        },
{
    reveal(Seq::filter);
    assert(s.take(i + 1).drop_last() =~= s.take(i));
    assert(s.take(i + 1).last() == s[i]);
}

impl Catalog {
    /// The entries by key, without copying.
    pub fn with_entries(&self) -> (r: &StringMap<PlacementEntry>)
        ensures
            r@ == self.entries(),
    {
        &self.entries
    }

    /// Takes a shard out of every entry; entries that are left without one go. The
    /// number of entries that were changed or removed.
    pub fn remove_all_for_shard(&mut self, shard_id: ShardId) -> (affected: usize)
        ensures
            final(self).entries() == shard_purged(old(self).entries(), shard_id),
            affected == keys_on_shard(old(self).entries(), shard_id).len(),
            final(self).dirty() == (old(self).dirty() || affected > 0),
    {
        let ghost before = self.entries();
        let n: usize = self.entries.len();
        let ghost keys = string_map::sorted(before.dom());
        let ghost on_shard = |k: Seq<char>| before[k].shards.contains(shard_id);
        let ghost want = shard_purged(before, shard_id);
        let mut kept: StringMap<PlacementEntry> = StringMap::new();
        let mut affected: usize = 0;
        let mut i: usize = 0;
        assert(keys.take(0).filter(on_shard).len() == 0) by {
            reveal(Seq::filter);
        }
        while i < n
            invariant
                i <= n,
                n == keys.len(),
                self.entries() == before,
                self.dirty() == old(self).dirty(),
                keys == string_map::sorted(before.dom()),
                keys.to_set() == before.dom(),
                want == shard_purged(before, shard_id),
                on_shard == (|k: Seq<char>| before[k].shards.contains(shard_id)),
                affected == keys.take(i as int).filter(on_shard).len(),
                affected <= i,
                forall|k: Seq<char>| #[trigger]
                    kept@.contains_key(k) ==> want.contains_key(k) && kept@[k] == want[k],
                forall|j: int|
                    0 <= j < i && want.contains_key(#[trigger] keys[j]) ==> kept@.contains_key(
                        keys[j],
                    ),
            decreases n - i,
        {
            let key = self.entries.key_at(i);
            let entry = self.entries.value_at(i);
            proof {
                lemma_filter_step(keys, i as int, on_shard);
                ids::lemma_without(entry.shards@, shard_id);
            }
            if has_id(entry.shards.as_slice(), shard_id) {
                affected = affected + 1;
                let mut e = entry.clone();
                e.shards = drop_id(e.shards.as_slice(), shard_id);
                if e.shards.len() > 0 {
                    assert(e@ =~= want[key@]);
                    kept.insert(key.clone(), e);
                }
            } else {
                assert(entry@ =~= want[key@]);
                kept.insert(key.clone(), entry.clone());
            }
            i = i + 1;
        }
        assert(keys.take(n as int) =~= keys);
        assert forall|k: Seq<char>| #[trigger] want.contains_key(k) implies kept@.contains_key(k) by {
            assert(keys.to_set().contains(k));
            let j = choose|j: int| 0 <= j < keys.len() && keys[j] == k;
            assert(want.contains_key(keys[j]));
        }
        assert(kept@ =~= want);
        self.entries = kept;
        if affected > 0 {
            self.dirty = true;
        }
        affected
    }

    /// The entries that refer to a shard, in the order of their keys.
    pub fn entries_for_shard(&self, shard_id: ShardId) -> (r: Vec<(String, PlacementEntry)>)
        ensures
            entry_views(r@) == pairs(self.entries(), keys_on_shard(self.entries(), shard_id)),
    {
        let n: usize = self.entries.len();
        let ghost entries = self.entries();
        let ghost keys = string_map::sorted(entries.dom());
        let ghost on_shard = |k: Seq<char>| entries[k].shards.contains(shard_id);
        let mut r: Vec<(String, PlacementEntry)> = Vec::new();
        let mut i: usize = 0;
        assert(entry_views(r@) =~= pairs(entries, keys.take(0).filter(on_shard))) by {
            reveal(Seq::filter);
        }
        while i < n
            invariant
                i <= n,
                n == keys.len(),
                entries == self.entries(),
                keys == string_map::sorted(entries.dom()),
                on_shard == (|k: Seq<char>| entries[k].shards.contains(shard_id)),
                entry_views(r@) == pairs(entries, keys.take(i as int).filter(on_shard)),
            decreases n - i,
        {
            let key = self.entries.key_at(i);
            let entry = self.entries.value_at(i);
            proof {
                lemma_filter_step(keys, i as int, on_shard);
            }
            if has_id(entry.shards.as_slice(), shard_id) {
                let ghost before = r@;
                let pair = (key.clone(), entry.clone());
                r.push(pair);
                assert(entry_views(r@) =~= entry_views(before).push((key@, entry@)));
                assert(entry_views(r@) =~= pairs(entries, keys.take(i + 1).filter(on_shard)));
            }
            i = i + 1;
        }
        assert(keys.take(n as int) =~= keys);
        r
    }

    /// All entries, in the order of their keys.
    pub fn all_entries(&self) -> (r: Vec<(String, PlacementEntry)>)
        ensures
            entry_views(r@) == pairs(self.entries(), string_map::sorted(self.entries().dom())),
    {
        let n: usize = self.entries.len();
        let ghost entries = self.entries();
        let ghost keys = string_map::sorted(entries.dom());
        let mut r: Vec<(String, PlacementEntry)> = Vec::new();
        let mut i: usize = 0;
        assert(entry_views(r@) =~= pairs(entries, keys.take(0)));
        while i < n
            invariant
                i <= n,
                n == keys.len(),
                entries == self.entries(),
                keys == string_map::sorted(entries.dom()),
                entry_views(r@) == pairs(entries, keys.take(i as int)),
            decreases n - i,
        {
            let key = self.entries.key_at(i);
            let entry = self.entries.value_at(i);
            let ghost before = r@;
            let pair = (key.clone(), entry.clone());
            r.push(pair);
            assert(entry_views(r@) =~= entry_views(before).push((key@, entry@)));
            assert(entry_views(r@) =~= pairs(entries, keys.take(i + 1)));
            i = i + 1;
        }
        assert(keys.take(n as int) =~= keys);
        r
    }

    /// The keys that start with a prefix, or all of them, in ascending order.
    pub fn keys(&self, prefix: Option<&str>) -> (r: Vec<String>)
        ensures
            text::views(r@) == keys_with_prefix(self.entries(), str_view(prefix)),
            forall|j: int| 0 <= j < r.len() ==> self.entries().contains_key((#[trigger] r@[j])@),
    {
        let n: usize = self.entries.len();
        let ghost keys = string_map::sorted(self.entries().dom());
        let ghost p = str_view(prefix);
        let ghost wanted = |k: Seq<char>|
            match p {
                Some(p) => p.is_prefix_of(k),
                None => true,
            };
        let mut r: Vec<String> = Vec::new();
        let mut i: usize = 0;
        assert(text::views(r@) =~= keys.take(0).filter(wanted)) by {
            reveal(Seq::filter);
        }
        while i < n
            invariant
                i <= n,
                n == keys.len(),
                keys == string_map::sorted(self.entries().dom()),
                p == str_view(prefix),
                wanted == (|k: Seq<char>|
                    match p {
                        Some(p) => p.is_prefix_of(k),
                        None => true,
                    }),
                text::views(r@) == keys.take(i as int).filter(wanted),
            decreases n - i,
        {
            let key = self.entries.key_at(i);
            proof {
                lemma_filter_step(keys, i as int, wanted);
            }
            let take = match prefix {
                Some(p) => starts_with(key.as_str(), p),
                None => true,
            };
            if take {
                let ghost before = r@;
                r.push(key.clone());
                assert(text::views(r@) =~= text::views(before).push(key@));
            }
            i = i + 1;
        }
        proof {
            assert(keys.take(n as int) =~= keys);
            lemma_prefix_keys_present(self.entries(), p);
            let found = keys_with_prefix(self.entries(), p);
            assert(found == text::views(r@));
            assert forall|j: int| 0 <= j < r.len() implies self.entries().contains_key(
                (#[trigger] r@[j])@,
            ) by {
                assert(self.entries().contains_key(found[j]));
            }
        }
        r
    }

    /// Lists the objects whose key starts with a prefix, or all of them, in the
    /// order of their keys.
    pub fn list(&self, prefix: Option<&str>) -> (r: Vec<ObjectMeta>)
        ensures
            object_specs(r@) == listing(
                self.entries(),
                keys_with_prefix(self.entries(), str_view(prefix)),
            ),
    {
        let keys = self.keys(prefix);
        let ghost entries = self.entries();
        let ghost all = text::views(keys@);
        assert forall|j: int| 0 <= j < all.len() implies entries.contains_key(#[trigger] all[j]) by {
            assert(entries.contains_key(keys@[j]@));
        }
        let mut r: Vec<ObjectMeta> = Vec::new();
        let mut i: usize = 0;
        assert(object_specs(r@) =~= listing(entries, all.take(0)));
        while i < keys.len()
            invariant
                i <= keys.len(),
                all == text::views(keys@),
                entries == self.entries(),
                forall|j: int| 0 <= j < all.len() ==> entries.contains_key(#[trigger] all[j]),
                object_specs(r@) == listing(entries, all.take(i as int)),
            decreases keys.len() - i,
        {
            assert(entries.contains_key(all[i as int]));
            if let Some(e) = self.entries.get(keys[i].as_str()) {
                let ghost before = r@;
                let meta = ObjectMeta {
                    location: path_from(keys[i].as_str()),
                    last_modified: e.updated,
                    size: e.size,
                    e_tag: None,
                    version: None,
                };
                r.push(meta);
                assert(object_specs(r@) =~= object_specs(before).push(meta@));
                assert(object_specs(r@) =~= listing(entries, all.take(i + 1)));
            }
            i = i + 1;
        }
        assert(all.take(i as int) =~= all);
        r
    }
}

/// The characters of an optional string.
pub open spec fn str_view(s: Option<&str>) -> Option<Seq<char>> {
    match s {
        Some(s) => Some(s@),
        None => None,
    }
}

/// The elements of a filtered sequence come from the sequence and pass the filter.
pub proof fn lemma_filter_members<T>(s: Seq<T>, pred: spec_fn(T) -> bool)
    ensures
        forall|j: int|
            0 <= j < s.filter(pred).len() ==> s.contains(#[trigger] s.filter(pred)[j]) && pred(
                s.filter(pred)[j],
            ),
    decreases s.len(),
{
    reveal(Seq::filter);
    if s.len() > 0 {
        let head = s.drop_last();
        lemma_filter_members(head, pred);
        let r = s.filter(pred);
        assert forall|j: int| 0 <= j < r.len() implies s.contains(#[trigger] r[j]) && pred(r[j]) by {
            if j < head.filter(pred).len() {
                assert(r[j] == head.filter(pred)[j]);
                let u = choose|u: int| 0 <= u < head.len() && head[u] == r[j];
                assert(s[u] == r[j]);
            } else {
                assert(s[s.len() - 1] == r[j]);
            }
        }
    }
}

/// The keys of a listing have entries.
pub proof fn lemma_prefix_keys_present(entries: Entries, prefix: Option<Seq<char>>)
    ensures
        string_map::sorted(entries.dom()).to_set() == entries.dom() ==> forall|j: int|
            0 <= j < keys_with_prefix(entries, prefix).len() ==> entries.contains_key(
                #[trigger] keys_with_prefix(entries, prefix)[j],
            ),
{
    let keys = string_map::sorted(entries.dom());
    let pred = |k: Seq<char>|
        match prefix {
            Some(p) => p.is_prefix_of(k),
            None => true,
        };
    lemma_filter_members(keys, pred);
    if keys.to_set() == entries.dom() {
        assert forall|j: int| 0 <= j < keys.filter(pred).len() implies entries.contains_key(
            #[trigger] keys.filter(pred)[j],
        ) by {
            assert(keys.to_set().contains(keys.filter(pred)[j]));
        }
    }
}

// -- Laws -------------------------------------------------------------------

/// Adding a replica that is listed already changes nothing.
pub proof fn adding_a_replica_twice_is_adding_it_once(
    entries: Entries,
    key: Seq<char>,
    shard: usize,
    size: u64,
    meta_len: u16,
    now: Timestamp,
    later_size: u64,
    later: Timestamp,
)
    ensures
        ({
            let once = replica_added(entries, key, shard, size, meta_len, now);
            replica_added(once, key, shard, later_size, meta_len, later) == once
        }),
{
    let once = replica_added(entries, key, shard, size, meta_len, now);
    let held = once[key].shards;
    if entries.contains_key(key) {
        let before = entries[key].shards;
        if !before.contains(shard) {
            assert(held[before.len() as int] == shard);
        }
    } else {
        assert(held[0] == shard);
    }
    assert(held.contains(shard));
    assert(with_replica(once, key, shard, later_size, meta_len, later) =~= once[key]);
    assert(replica_added(once, key, shard, later_size, meta_len, later) =~= once);
}

/// Taking out a shard undoes adding a replica on it, where the shard was not listed
/// and the replica has no metadata of its own.
pub proof fn removing_a_shard_undoes_adding_it(
    entries: Entries,
    key: Seq<char>,
    shard: usize,
    size: u64,
    now: Timestamp,
)
    requires
        entries.contains_key(key) ==> entries[key].shards.len() > 0
            && !entries[key].shards.contains(shard),
    ensures
        shard_removed(replica_added(entries, key, shard, size, 0, now), key, shard) == entries,
{
    let added = replica_added(entries, key, shard, size, 0, now);
    reveal(Seq::filter);
    if entries.contains_key(key) {
        let before = entries[key].shards;
        ids::lemma_without(before, shard);
        assert(before.push(shard).drop_last() =~= before);
        assert(ids::without(before.push(shard), shard) == before);
        assert(Placement { shards: before, ..added[key] } =~= entries[key]);
    } else {
        assert(seq![shard].drop_last() =~= Seq::<usize>::empty());
        assert(ids::without(Seq::<usize>::empty(), shard).len() == 0);
        assert(ids::without(seq![shard], shard).len() == 0);
    }
    assert(shard_removed(added, key, shard) =~= entries);
}

/// After a shard was taken out of every entry, no entry lists it, every other shard is
/// listed as before, and only the entries are gone that listed no other shard.
pub proof fn a_purged_shard_is_listed_nowhere(entries: Entries, shard: usize, key: Seq<char>)
    ensures
        ({
            let after = shard_purged(entries, shard);
            &&& after.contains_key(key) ==> entries.contains_key(key)
                && !after[key].shards.contains(shard)
            &&& forall|other: usize|
                other != shard && entries.contains_key(key)
                    && #[trigger] entries[key].shards.contains(other) ==> after.contains_key(key)
                    && after[key].shards.contains(other)
            &&& entries.contains_key(key) && !entries[key].shards.contains(shard)
                ==> after.contains_key(key) && after[key] == entries[key]
        }),
{
    if entries.contains_key(key) {
        let held = entries[key].shards;
        ids::lemma_without(held, shard);
        assert forall|other: usize| other != shard && #[trigger] held.contains(
            other,
        ) implies ids::without(held, shard).len() > 0 && ids::without(held, shard).contains(
            other,
        ) by {
            assert(ids::without(held, shard).contains(other));
        }
        if !held.contains(shard) {
            assert(shard_purged(entries, shard)[key] =~= entries[key]);
        }
    }
}

proof fn lemma_gathered(entries: Entries, keys: Seq<Seq<char>>)
    ensures
        forall|k: Seq<char>| #[trigger]
            gathered(pairs(entries, keys)).contains_key(k) <==> keys.contains(k),
        forall|k: Seq<char>|
            keys.contains(k) ==> #[trigger] gathered(pairs(entries, keys))[k] == entries[k],
    decreases keys.len(),
{
    if keys.len() > 0 {
        let head = keys.drop_last();
        lemma_gathered(entries, head);
        assert(pairs(entries, keys).drop_last() =~= pairs(entries, head));
        assert forall|k: Seq<char>| keys.contains(k) <==> head.contains(k) || k == keys.last() by {
            if keys.contains(k) && k != keys.last() {
                let i = keys.index_of(k);
                assert(head[i] == k);
            }
            if head.contains(k) {
                let i = head.index_of(k);
                assert(keys[i] == k);
            }
            assert(keys[keys.len() - 1] == keys.last());
        }
        let all = pairs(entries, keys);
        assert(all.last() == (keys.last(), entries[keys.last()]));
        assert(gathered(all) == gathered(pairs(entries, head)).insert(
            keys.last(),
            entries[keys.last()],
        ));
    }
}

/// A catalog that is made of all the entries of another has the same entries, each with
/// the shards, size, checksum, time and length of metadata that it had.
pub proof fn gathering_all_entries_gives_them_back(entries: Entries)
    requires
        entries.dom().finite(),
    ensures
        gathered(pairs(entries, string_map::sorted(entries.dom()))) == entries,
{
    let keys = string_map::sorted(entries.dom());
    string_map::lemma_sorted_exists(entries.dom());
    lemma_gathered(entries, keys);
    let got = gathered(pairs(entries, keys));
    assert forall|k: Seq<char>| #[trigger] got.contains_key(k) <==> entries.contains_key(k) by {
        assert(keys.contains(k) == keys.to_set().contains(k));
    }
    assert(got =~= entries);
}

/// After a replica was found on a shard, the entry lists that shard, once more than
/// before only if it did not list it, and the shards that it listed before. An entry
/// that was there keeps its size, checksum and time, and its length of metadata unless
/// one is told. A new one has what was told. All other entries stay.
pub proof fn a_replica_that_was_found_is_listed(
    entries: Entries,
    key: Seq<char>,
    shard: usize,
    size: u64,
    meta_len: u16,
    now: Timestamp,
)
    ensures
        ({
            let after = replica_added(entries, key, shard, size, meta_len, now);
            let e = after[key];
            &&& after.contains_key(key)
            &&& forall|id: usize| #[trigger]
                e.shards.contains(id) <==> id == shard || (entries.contains_key(key)
                    && entries[key].shards.contains(id))
            &&& !entries.contains_key(key) ==> e.shards.len() == 1 && e.size == size
                && e.crc32c is None && e.meta_len == meta_len && e.updated == now
            &&& entries.contains_key(key) ==> {
                let old = entries[key];
                &&& e.size == old.size && e.crc32c == old.crc32c && e.updated == old.updated
                &&& meta_len == 0 ==> e.meta_len == old.meta_len
                &&& meta_len > 0 ==> e.meta_len == meta_len
                &&& e.shards.len() == old.shards.len() + if old.shards.contains(shard) {
                    0nat
                } else {
                    1nat
                }
                &&& old.shards.is_prefix_of(e.shards)
            }
            &&& forall|k: Seq<char>|
                k != key ==> (#[trigger] after.contains_key(k) == entries.contains_key(k))
                    && after[k] == entries[k]
        }),
{
    let e = replica_added(entries, key, shard, size, meta_len, now)[key];
    if entries.contains_key(key) {
        let old = entries[key].shards;
        assert(old.is_prefix_of(e.shards)) by {
            assert(e.shards.subrange(0, old.len() as int) =~= old);
        }
        if !old.contains(shard) {
            assert(e.shards[old.len() as int] == shard);
            assert forall|id: usize| #[trigger] e.shards.contains(id) <==> id == shard
                || old.contains(id) by {
                if old.contains(id) {
                    assert(e.shards[old.index_of(id)] == id);
                }
                if e.shards.contains(id) {
                    let i = e.shards.index_of(id);
                    if i < old.len() {
                        assert(old[i] == id);
                    }
                }
            }
        }
    } else {
        assert(e.shards[0] == shard);
    }
}

/// Taking a shard out of an entry takes out that shard alone and leaves the rest of the
/// entry as it was. The entry goes exactly if it listed no other shard. All other
/// entries stay.
pub proof fn a_shard_that_is_taken_out_is_gone_alone(
    entries: Entries,
    key: Seq<char>,
    shard: usize,
)
    requires
        entries.contains_key(key),
    ensures
        ({
            let after = shard_removed(entries, key, shard);
            let old = entries[key];
            &&& after.contains_key(key) <==> exists|id: usize| #[trigger]
                old.shards.contains(id) && id != shard
            &&& after.contains_key(key) ==> {
                let e = after[key];
                &&& forall|id: usize| #[trigger]
                    e.shards.contains(id) <==> old.shards.contains(id) && id != shard
                &&& e.size == old.size && e.crc32c == old.crc32c && e.updated == old.updated
                    && e.meta_len == old.meta_len
            }
            &&& forall|k: Seq<char>|
                k != key ==> (#[trigger] after.contains_key(k) == entries.contains_key(k))
                    && after[k] == entries[k]
        }),
{
    let old = entries[key].shards;
    let left = ids::without(old, shard);
    ids::lemma_without(old, shard);
    assert forall|id: usize| #[trigger] left.contains(id) <==> old.contains(id) && id != shard by {
        if id == shard {
            assert(!left.contains(shard));
        }
    }
    if left.len() > 0 {
        assert(left.contains(left[0]));
        assert(old.contains(left[0]) && left[0] != shard);
    } else if exists|id: usize| #[trigger] old.contains(id) && id != shard {
        let id = choose|id: usize| #[trigger] old.contains(id) && id != shard;
        assert(left.contains(id));
    }
}

/// Taking a shard out of every entry does to each what taking it out of that one does.
pub proof fn purging_a_shard_takes_it_out_of_each_entry(
    entries: Entries,
    shard: usize,
    key: Seq<char>,
)
    requires
        entries.contains_key(key),
        entries[key].shards.len() > 0,
    ensures
        shard_purged(entries, shard).contains_key(key) <==> shard_removed(
            entries,
            key,
            shard,
        ).contains_key(key),
        shard_purged(entries, shard).contains_key(key) ==> shard_purged(entries, shard)[key]
            == shard_removed(entries, key, shard)[key],
{
    let old = entries[key].shards;
    ids::lemma_without(old, shard);
    if !old.contains(shard) {
        assert(ids::without(old, shard) == old);
    }
}

/// The entries that refer to a shard are those that list it, each once.
pub proof fn the_entries_of_a_shard_are_those_that_list_it(entries: Entries, shard: usize)
    requires
        entries.dom().finite(),
    ensures
        ({
            let keys = keys_on_shard(entries, shard);
            &&& keys.no_duplicates()
            &&& forall|k: Seq<char>| #[trigger]
                keys.contains(k) <==> entries.contains_key(k) && entries[k].shards.contains(shard)
        }),
{
    let pred = |k: Seq<char>| entries[k].shards.contains(shard);
    lemma_kept_keys(entries, pred);
}

/// A listing shows, in ascending order, each object whose key starts with the prefix,
/// and no other; without a prefix it shows all of them. Each is shown with the size and
/// time of its entry.
pub proof fn a_listing_shows_the_keys_with_the_prefix(entries: Entries, prefix: Seq<char>)
    requires
        entries.dom().finite(),
    ensures
        ({
            let keys = keys_with_prefix(entries, Some(prefix));
            let shown = listing(entries, keys);
            &&& keys.no_duplicates()
            &&& forall|k: Seq<char>| #[trigger]
                keys.contains(k) <==> entries.contains_key(k) && prefix.len() <= k.len() && k.take(
                    prefix.len() as int,
                ) == prefix
            &&& forall|k: Seq<char>| #[trigger]
                keys_with_prefix(entries, None).contains(k) <==> entries.contains_key(k)
            &&& shown.len() == keys.len()
            &&& forall|i: int|
                0 <= i < shown.len() ==> (#[trigger] shown[i]).size == entries[keys[i]].size
                    && shown[i].last_modified == entries[keys[i]].updated && shown[i].e_tag is None
                    && shown[i].version is None
        }),
{
    lemma_prefix_keys(entries, Some(prefix));
    lemma_prefix_keys(entries, None);
    assert forall|k: Seq<char>| #[trigger] prefix.is_prefix_of(k) <==> prefix.len() <= k.len()
        && k.take(prefix.len() as int) == prefix by {
        if prefix.is_prefix_of(k) {
            assert(k.take(prefix.len() as int) =~= prefix);
        }
        if prefix.len() <= k.len() && k.take(prefix.len() as int) == prefix {
            assert(k.subrange(0, prefix.len() as int) =~= prefix);
        }
    }
}

pub proof fn lemma_prefix_keys(entries: Entries, prefix: Option<Seq<char>>)
    requires
        entries.dom().finite(),
    ensures
        keys_with_prefix(entries, prefix).no_duplicates(),
        forall|k: Seq<char>| #[trigger]
            keys_with_prefix(entries, prefix).contains(k) <==> entries.contains_key(k) && (prefix matches Some(
                p,
            ) ==> p.is_prefix_of(k)),
{
    let pred = |k: Seq<char>|
        match prefix {
            Some(p) => p.is_prefix_of(k),
            None => true,
        };
    lemma_kept_keys(entries, pred);
}

pub proof fn lemma_kept_keys(entries: Entries, pred: spec_fn(Seq<char>) -> bool)
    requires
        entries.dom().finite(),
    ensures
        ({
            let keys = string_map::sorted(entries.dom()).filter(pred);
            &&& keys.no_duplicates()
            &&& forall|k: Seq<char>| #[trigger]
                keys.contains(k) <==> entries.contains_key(k) && pred(k)
        }),
{
    let all = string_map::sorted(entries.dom());
    let keys = all.filter(pred);
    string_map::lemma_sorted_exists(entries.dom());
    string_map::lemma_ascending_distinct(all);
    lemma_filter_members(all, pred);
    lemma_filter_unique(all, pred);
    assert forall|k: Seq<char>| #[trigger] keys.contains(k) <==> entries.contains_key(k) && pred(
        k,
    ) by {
        assert(all.contains(k) <==> all.to_set().contains(k));
        if entries.contains_key(k) && pred(k) {
            assert(entries.dom().contains(k));
            all.lemma_filter_contains(pred, all.index_of(k));
        }
    }
}

/// Filtering a sequence without repetitions leaves none.
pub proof fn lemma_filter_unique<T>(s: Seq<T>, pred: spec_fn(T) -> bool)
    requires
        s.no_duplicates(),
    ensures
        s.filter(pred).no_duplicates(),
    decreases s.len(),
{
    reveal(Seq::filter);
    if s.len() > 0 {
        let head = s.drop_last();
        lemma_filter_unique(head, pred);
        lemma_filter_members(head, pred);
        let f = head.filter(pred);
        assert forall|i: int| 0 <= i < f.len() implies f[i] != s.last() by {
            assert(f.contains(f[i]));
            let k = head.index_of(f[i]);
            assert(s[k] != s[s.len() - 1]);
        }
    }
}

} // verus!
