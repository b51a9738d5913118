//! Following the events of another cluster.
//!
//! A replica that shares its shards with a writer keeps its catalog up to date from
//! the events of the writer. That is right only where every object is on every shard.

use vstd::prelude::*;
use vstd::string::*;
use crate::catalog;
use crate::ids::ShardId;
use crate::placement;
use crate::put;
use crate::store;
use crate::store::ShardedObjectStore;
use crate::text;
use crate::text::number;
use crate::time::Timestamp;

verus! {

/// What has happened to a cluster.
#[derive(Debug)]
pub enum StoreEvent {
    /// An object was put.
    Put { key: String },
    /// An object was deleted.
    Delete { key: String },
    /// A shard was flushed.
    Flush { shard_id: ShardId, txn_id: u64 },
}

/// What has happened to a cluster.
pub enum EventSpec {
    Put { key: Seq<char> },
    Delete { key: Seq<char> },
    Flush { shard_id: usize, txn_id: u64 },
}

impl View for StoreEvent {
    type V = EventSpec;

    open spec fn view(&self) -> EventSpec {
        match *self {
            StoreEvent::Put { key } => EventSpec::Put { key: key@ },
            StoreEvent::Delete { key } => EventSpec::Delete { key: key@ },
            StoreEvent::Flush { shard_id, txn_id } => EventSpec::Flush { shard_id, txn_id },
        }
    }
}

/// Whether every object of a cluster is on every shard: there is one shard at most, or
/// as many copies as shards.
pub open spec fn is_mirror(c: store::ClusterState) -> bool {
    c.shards.len() <= 1 || c.rf == c.shards.len()
}

/// Why a cluster cannot follow the events of another.
pub open spec fn no_mirror(rf: nat, shards: nat) -> Seq<char> {
    "streaming replica requires rf=1 with 1 shard or rf=shard_count (mirror mode), got rf="@
        + text::decimal(rf) + " with "@ + text::decimal(shards) + " shards"@
}

/// The cluster after an event of another that shares its shards. An object that was put
/// is on all shards, with the size that the first of them gave, if it gave one.
pub open spec fn event_followed(
    c: store::ClusterState,
    e: EventSpec,
    size: Option<u64>,
    now: Timestamp,
) -> store::ClusterState {
    match e {
        EventSpec::Put { key } => match size {
            Some(n) if c.shards.len() > 0 => put::with_entries(
                c,
                c.entries.insert(
                    key,
                    catalog::placed(placement::all_ids(c.shards.len()), n, None, 0, now),
                ),
            ),
            _ => c,
        },
        EventSpec::Delete { key } => put::entry_dropped(c, key),
        EventSpec::Flush { .. } => c,
    }
}

impl ShardedObjectStore {
    /// Whether the cluster can follow the events of another, or why not.
    pub fn subscribe_streaming_replica(&self) -> (r: Result<(), String>)
        ensures
            match r {
                Ok(()) => is_mirror(self@),
                Err(e) => !is_mirror(self@) && e@ == no_mirror(self@.rf, self@.shards.len()),
            },
    {
        let shard_count: usize = self.shard_count();
        let rf: usize = self.replication_factor();
        if shard_count > 1 && rf != shard_count {
            let mut s =
                "streaming replica requires rf=1 with 1 shard or rf=shard_count (mirror mode), got rf=".to_owned();
            s.append(number(rf as u64).as_str());
            s.append(" with ");
            s.append(number(shard_count as u64).as_str());
            s.append(" shards");
            return Err(s);
        }
        Ok(())
    }

    /// Follows an event of another cluster, given the size that the first shard gave of
    /// an object that was put.
    pub fn follow_event(&mut self, event: &StoreEvent, size: Option<u64>, now: Timestamp)
        ensures
            final(self)@ == event_followed(old(self)@, event@, size, now),
            store::valid(old(self)@) ==> store::valid(final(self)@),
    {
        match event {
            StoreEvent::Put { key } => {
                if self.shard_count() > 0 {
                    if let Some(n) = size {
                        let all = self.number_shards();
                        self.catalog_mut().put_at(key.clone(), all, n, None, 0, now);
                    }
                }
            },
            StoreEvent::Delete { key } => {
                self.catalog_mut().remove(key.as_str());
            },
            StoreEvent::Flush { .. } => {},
        }
    }
}

// -- Laws -------------------------------------------------------------------

/// A replica that follows the put of an object and then its deletion has the catalog
/// that it had before, if it did not have the object.
pub proof fn a_deletion_undoes_a_put(
    c: store::ClusterState,
    key: Seq<char>,
    size: Option<u64>,
    now: Timestamp,
)
    requires
        !c.entries.contains_key(key),
    ensures
        ({
            let put = event_followed(c, EventSpec::Put { key }, size, now);
            event_followed(put, EventSpec::Delete { key }, None, now).entries == c.entries
        }),
{
    let put = event_followed(c, EventSpec::Put { key }, size, now);
    assert(event_followed(put, EventSpec::Delete { key }, None, now).entries =~= c.entries);
}

/// A replica that follows a put has an entry that names every shard, in order, and the
/// size that was given; one that follows a deletion has none. The entries of other
/// objects and the shards stay as they are. A flush, or a put of unknown size, changes
/// nothing.
pub proof fn an_event_concerns_its_object_alone(
    c: store::ClusterState,
    key: Seq<char>,
    other: Seq<char>,
    n: u64,
    shard_id: usize,
    txn_id: u64,
    size: Option<u64>,
    now: Timestamp,
)
    requires
        key != other,
        0 < c.shards.len() <= usize::MAX,
    ensures
        ({
            let put = event_followed(c, EventSpec::Put { key }, Some(n), now);
            let gone = event_followed(c, EventSpec::Delete { key }, size, now);
            &&& put.entries.contains_key(key)
            &&& put.entries[key].size == n
            &&& put.entries[key].updated == now
            &&& put.entries[key].crc32c is None
            &&& put.entries[key].shards.len() == c.shards.len()
            &&& forall|i: int|
                0 <= i < c.shards.len() ==> (#[trigger] put.entries[key].shards[i]) == i
            &&& put.entries.contains_key(other) == c.entries.contains_key(other)
            &&& put.entries[other] == c.entries[other]
            &&& put.shards == c.shards
            &&& put.dirty
            &&& !gone.entries.contains_key(key)
            &&& gone.entries.contains_key(other) == c.entries.contains_key(other)
            &&& gone.entries[other] == c.entries[other]
            &&& gone.shards == c.shards
            &&& c.entries.contains_key(key) ==> gone.dirty
        }),
        event_followed(c, EventSpec::Flush { shard_id, txn_id }, size, now) == c,
        event_followed(c, EventSpec::Put { key }, None, now) == c,
{
}

/// A cluster can follow the events of another exactly if it keeps as many copies of each
/// object as there are shards.
pub proof fn a_mirror_keeps_a_copy_on_every_shard(c: store::ClusterState)
    requires
        store::valid(c),
    ensures
        is_mirror(c) <==> c.rf >= c.shards.len(),
{
}

} // verus!
